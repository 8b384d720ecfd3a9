//! The value model: a closed set of tagged value variants, immutable once
//! constructed, plus the parsed-program type handed from the parser to the
//! evaluator.

use vstd::prelude::*;

verus! {

broadcast use vstd::std_specs::vec::group_vec_axioms, vstd::seq::group_seq_axioms;

/// Which host operation a native-function value denotes.  The native
/// registry is a fixed set, so an explicit enumeration keeps dispatch
/// centralized and exhaustive.
#[derive(Clone, Copy, PartialEq, Eq, Structural, Debug)]
pub enum NativeOp {
    Add,
    Sub,
    ListOf,
    StringAppend,
    Hash,
    HashSet,
    Display,
    Write,
    Read,
}

/// The mathematical model of a value: integers as `int`, text as sequences
/// of characters, lists and tables as sequences, and closures by their
/// parameter names, body, and the index of their defining environment.
#[verifier::ext_equal]
pub enum SpVal {
    Nil,
    Int(int),
    Str(Seq<char>),
    Sym(Seq<char>),
    Lst(Seq<SpVal>),
    Table(Seq<(Seq<char>, SpVal)>),
    Native(NativeOp),
    Closure { params: Seq<Seq<char>>, body: Box<SpVal>, env: int },
}

/// A runtime value.  Values are immutable after construction and are
/// shared by structural copy: because no value is ever mutated, a copy
/// is indistinguishable from an alias.
#[derive(Debug, PartialEq)]
pub enum LispType {
    Nil,
    Integer(i64),
    Strn(String),
    Symbol(String),
    List(Vec<LispType>),
    HashMap(Vec<(String, LispType)>),
    NativeFunction(NativeOp),
    Function(FunctionData),
}

pub type LispValue = LispType;

/// A user-defined function: parameter names, an unevaluated body, and the
/// index of the environment captured at its definition site.
#[derive(Debug, PartialEq)]
pub struct FunctionData {
    pub params: Vec<String>,
    pub body: Box<LispType>,
    pub env: usize,
}

pub open spec fn lisp_view(v: LispType) -> SpVal
    decreases v,
{
    match v {
        LispType::Nil => SpVal::Nil,
        LispType::Integer(i) => SpVal::Int(i as int),
        LispType::Strn(s) => SpVal::Str(s@),
        LispType::Symbol(s) => SpVal::Sym(s@),
        LispType::List(es) => SpVal::Lst(views_of(es@)),
        LispType::HashMap(ps) => SpVal::Table(entry_views_of(ps@)),
        LispType::NativeFunction(op) => SpVal::Native(op),
        LispType::Function(d) => SpVal::Closure {
            params: name_views_of(d.params@),
            body: Box::new(lisp_view(*d.body)),
            env: d.env as int,
        },
    }
}

/// The models of the elements of a sequence of values.
pub open spec fn views_of(s: Seq<LispType>) -> Seq<SpVal>
    decreases s,
{
    if s.len() == 0 {
        Seq::empty()
    } else {
        views_of(s.subrange(0, s.len() - 1)).push(lisp_view(s[s.len() - 1]))
    }
}

/// The models of the entries of a key/value table.
pub open spec fn entry_views_of(s: Seq<(String, LispType)>) -> Seq<(Seq<char>, SpVal)>
    decreases s,
{
    if s.len() == 0 {
        Seq::empty()
    } else {
        entry_views_of(s.subrange(0, s.len() - 1)).push(
            (s[s.len() - 1].0@, lisp_view(s[s.len() - 1].1)),
        )
    }
}

/// The character sequences of a list of names.
pub open spec fn name_views_of(s: Seq<String>) -> Seq<Seq<char>> {
    Seq::new(s.len(), |i: int| s[i]@)
}

pub broadcast proof fn lemma_views_of(s: Seq<LispType>)
    ensures
        (#[trigger] views_of(s)).len() == s.len(),
        forall|i: int| 0 <= i < s.len() ==> views_of(s)[i] == lisp_view(s[i]),
    decreases s.len(),
{
    if s.len() > 0 {
        lemma_views_of(s.subrange(0, s.len() - 1));
        assert forall|i: int| 0 <= i < s.len() implies views_of(s)[i] == lisp_view(s[i]) by {
            if i < s.len() - 1 {
                assert(s.subrange(0, s.len() - 1)[i] == s[i]);
            }
        }
    }
}

pub broadcast proof fn lemma_entry_views_of(s: Seq<(String, LispType)>)
    ensures
        (#[trigger] entry_views_of(s)).len() == s.len(),
        forall|i: int| 0 <= i < s.len() ==> entry_views_of(s)[i] == (s[i].0@, lisp_view(s[i].1)),
    decreases s.len(),
{
    if s.len() > 0 {
        lemma_entry_views_of(s.subrange(0, s.len() - 1));
        assert forall|i: int| 0 <= i < s.len() implies entry_views_of(s)[i] == (
            s[i].0@,
            lisp_view(s[i].1),
        ) by {
            if i < s.len() - 1 {
                assert(s.subrange(0, s.len() - 1)[i] == s[i]);
            }
        }
    }
}

impl View for LispType {
    type V = SpVal;

    open spec fn view(&self) -> SpVal {
        lisp_view(*self)
    }
}

// Constructors

pub fn nil() -> (r: LispValue)
    ensures
        r@ == SpVal::Nil,
{
    LispType::Nil
}

pub fn integer(i: i64) -> (r: LispValue)
    ensures
        r@ == SpVal::Int(i as int),
{
    LispType::Integer(i)
}

pub fn string(value: String) -> (r: LispValue)
    ensures
        r@ == SpVal::Str(value@),
{
    LispType::Strn(value)
}

pub fn symbol(value: String) -> (r: LispValue)
    ensures
        r@ == SpVal::Sym(value@),
{
    LispType::Symbol(value)
}

pub fn list(seq: Vec<LispValue>) -> (r: LispValue)
    ensures
        r@ == SpVal::Lst(views_of(seq@)),
{
    LispType::List(seq)
}

pub fn hash_map(data: Vec<(String, LispValue)>) -> (r: LispValue)
    ensures
        r@ == SpVal::Table(entry_views_of(data@)),
{
    LispType::HashMap(data)
}

pub fn native_function(op: NativeOp) -> (r: LispValue)
    ensures
        r@ == SpVal::Native(op),
{
    LispType::NativeFunction(op)
}

pub fn function(params: Vec<String>, body: LispValue, env: usize) -> (r: LispValue)
    ensures
        r@ == (SpVal::Closure {
            params: name_views_of(params@),
            body: Box::new(body@),
            env: env as int,
        }),
{
    LispType::Function(FunctionData { params, body: Box::new(body), env })
}

/// Structural copy of a value; the copy denotes the same model value.
#[verifier::loop_isolation(false)]
pub fn dup(v: &LispType) -> (r: LispType)
    ensures
        r@ == v@,
    decreases *v,
{
    broadcast use lemma_views_of, lemma_entry_views_of;

    match v {
        LispType::Nil => LispType::Nil,
        LispType::Integer(i) => LispType::Integer(*i),
        LispType::Strn(s) => LispType::Strn(s.clone()),
        LispType::Symbol(s) => LispType::Symbol(s.clone()),
        LispType::List(es) => {
            let mut out: Vec<LispType> = Vec::new();
            let mut i: usize = 0;
            while i < es.len()
                invariant
                    i <= es.len(),
                    out@.len() == i as int,
                    forall|j: int| 0 <= j < i ==> lisp_view(out@[j]) == lisp_view(
                        #[trigger] es@[j],
                    ),
                decreases es.len() - i,
            {
                let e = dup(&es[i]);
                out.push(e);
                i = i + 1;
            }
            let r = LispType::List(out);
            proof {
                assert(views_of(out@) =~= views_of(es@));
            }
            r
        },
        LispType::HashMap(ps) => {
            let mut out: Vec<(String, LispType)> = Vec::new();
            let mut i: usize = 0;
            while i < ps.len()
                invariant
                    i <= ps.len(),
                    out@.len() == i as int,
                    forall|j: int| 0 <= j < i ==> out@[j].0@ == (#[trigger] ps@[j]).0@
                        && lisp_view(out@[j].1) == lisp_view(ps@[j].1),
                decreases ps.len() - i,
            {
                let k = ps[i].0.clone();
                let val = dup(&ps[i].1);
                out.push((k, val));
                i = i + 1;
            }
            let r = LispType::HashMap(out);
            proof {
                assert(entry_views_of(out@) =~= entry_views_of(ps@));
            }
            r
        },
        LispType::NativeFunction(op) => LispType::NativeFunction(*op),
        LispType::Function(d) => {
            let mut params: Vec<String> = Vec::new();
            let mut i: usize = 0;
            while i < d.params.len()
                invariant
                    i <= d.params.len(),
                    params@.len() == i as int,
                    forall|j: int| 0 <= j < i ==> params@[j]@ == (#[trigger] d.params@[j])@,
                decreases d.params.len() - i,
            {
                let p = d.params[i].clone();
                params.push(p);
                i = i + 1;
            }
            let body = dup(&*d.body);
            let r = LispType::Function(FunctionData { params, body: Box::new(body), env: d.env });
            proof {
                assert(name_views_of(params@) =~= name_views_of(d.params@));
            }
            r
        },
    }
}

/// One parsed top-level unit: a shell command, a Lisp expression, or empty
/// input.
#[derive(Debug, PartialEq)]
pub enum Program {
    ShellProgram(ShellExpr),
    LispProgram(LispValue),
    EmptyProgram,
}

/// A shell command: the command name and its argument words, raw text.
#[derive(Debug, Clone, PartialEq)]
pub struct ShellExpr {
    pub command: String,
    pub args: Vec<String>,
}

/// The model of a shell command.
#[verifier::ext_equal]
pub struct SpShellExpr {
    pub command: Seq<char>,
    pub args: Seq<Seq<char>>,
}

impl View for ShellExpr {
    type V = SpShellExpr;

    open spec fn view(&self) -> SpShellExpr {
        SpShellExpr { command: self.command@, args: name_views_of(self.args@) }
    }
}

/// The model of a parsed program.
#[verifier::ext_equal]
pub enum SpProg {
    Shell(SpShellExpr),
    Lisp(SpVal),
    Empty,
}

pub open spec fn program_view(p: Program) -> SpProg {
    match p {
        Program::ShellProgram(e) => SpProg::Shell(e@),
        Program::LispProgram(v) => SpProg::Lisp(lisp_view(v)),
        Program::EmptyProgram => SpProg::Empty,
    }
}

impl View for Program {
    type V = SpProg;

    open spec fn view(&self) -> SpProg {
        program_view(*self)
    }
}

} // verus!
