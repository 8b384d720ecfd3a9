//! One runtime session: a root environment populated with the native
//! builtins, fed one input line at a time through the lexer, the parser
//! and the evaluator.

use vstd::prelude::*;

use crate::env::{Env, EnvArena, SpFrame};
use crate::error::{Error, SpErr};
use crate::evaluator::{
    eval_program_sp, wf_state, Evaluator, Outcome, SpOutcome,
};
use crate::lexer::{tokens_of, Lexer};
use crate::parser::{read_program_sp, Parser};
use crate::token::tok_views;

verus! {

broadcast use vstd::std_specs::vec::group_vec_axioms, vstd::seq::group_seq_axioms;

/// What one input line means: lex, parse one program, evaluate it.
/// A lexing or parsing failure leaves every scope untouched.
pub open spec fn run_sp(text: Seq<char>, env: int, st: Seq<SpFrame>) -> (Result<
    SpOutcome,
    SpErr,
>, Seq<SpFrame>) {
    match tokens_of(text) {
        Result::Err(e) => (Result::Err(e), st),
        Result::Ok(toks) => match read_program_sp(toks, 0) {
            Result::Err(e) => (Result::Err(e), st),
            Result::Ok((prog, _)) => eval_program_sp(prog, env, st),
        },
    }
}

pub struct Engine {
    pub evaluator: Evaluator,
    pub env: Env,
    pub arena: EnvArena,
}

impl Engine {
    /// A session is well formed when its scopes are and its current
    /// environment exists.
    pub open spec fn wf(&self) -> bool {
        &&& wf_state(self.arena@)
        &&& (self.env as int) < self.arena@.len()
    }

    /// A fresh session: one root scope holding the native registry.
    pub fn new() -> (r: Engine)
        ensures
            r.wf(),
            r.env == 0,
            r.arena@ == Seq::<SpFrame>::empty().push(
                SpFrame {
                    table: crate::natives::env::native_table(),
                    outer: Option::None,
                },
            ),
    {
        let mut arena = EnvArena::new();
        let env = crate::natives::env::create(&mut arena);
        Engine { evaluator: Evaluator::new(), env, arena }
    }

    /// Runs one input line: the result is a value to print, a resolved
    /// shell command for the caller to spawn, or nothing, exactly as
    /// `run_sp` prescribes over the session's scopes.
    pub fn run(&mut self, input: &str) -> (r: Result<Outcome, Error>)
        requires
            old(self).wf(),
        ensures
            final(self).wf(),
            final(self).env == old(self).env,
            ({
                let out = run_sp(input@, old(self).env as int, old(self).arena@);
                &&& final(self).arena@ == out.1
                &&& (match out.0 {
                    Result::Ok(o) => (r matches Result::Ok(x) && x@ == o),
                    Result::Err(e) => (r matches Result::Err(x) && crate::error::error_view(x)
                        == e),
                })
            }),
    {
        let lexer = Lexer::new();
        let tokens = match lexer.tokenize(input) {
            Result::Ok(toks) => toks,
            Result::Err(e) => {
                return Result::Err(e);
            },
        };
        let mut parser = Parser::new();
        let ghost added = tok_views(tokens@);
        parser.add_tokens(tokens);
        proof {
            assert(Seq::<crate::token::SpTok>::empty() + added =~= added);
        }
        let program = match parser.parse() {
            Result::Ok(p) => p,
            Result::Err(e) => {
                return Result::Err(e);
            },
        };
        proof {
            match program@ {
                crate::types::SpProg::Lisp(v) => {
                    crate::evaluator::lemma_program_value_closed(
                        added,
                        self.arena@.len() as int,
                    );
                },
                _ => {},
            }
        }
        self.evaluator.eval(program, self.env, &mut self.arena)
    }
}

} // verus!
