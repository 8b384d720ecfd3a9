//! Recursive parsing native: `read` turns a string back into a value
//! through the same lexer and parser pipeline as ordinary input.

use vstd::prelude::*;

use crate::error::Error;
use crate::lexer::Lexer;
use crate::parser::Parser;
use crate::token::tok_views;
use crate::types::{views_of, LispType, LispValue, NativeOp, Program};

verus! {

broadcast use vstd::std_specs::vec::group_vec_axioms, vstd::seq::group_seq_axioms;

/// `read`: parses its string argument back into a value; only a Lisp
/// program is a value, a shell-shaped text is a type error.
pub fn read(args: &Vec<LispValue>) -> (r: Result<LispValue, Error>)
    ensures
        crate::evaluator::native_matches(NativeOp::Read, views_of(args@), r),
{
    broadcast use crate::types::lemma_views_of, crate::token::lemma_tok_views;

    if args.len() < 1 {
        return Result::Err(Error::TypeError);
    }
    let text = match &args[0] {
        LispType::Strn(s) => s,
        _ => {
            return Result::Err(Error::TypeError);
        },
    };
    let lexer = Lexer::new();
    let tokens = match lexer.tokenize(text.as_str()) {
        Result::Ok(toks) => toks,
        Result::Err(e) => {
            return Result::Err(e);
        },
    };
    let mut parser = Parser::new();
    let ghost added = tok_views(tokens@);
    parser.add_tokens(tokens);
    proof {
        assert(Seq::<crate::token::SpTok>::empty() + added =~= added);
    }
    match parser.parse() {
        Result::Ok(Program::LispProgram(value)) => Result::Ok(value),
        Result::Ok(_) => Result::Err(Error::TypeError),
        Result::Err(e) => Result::Err(e),
    }
}

} // verus!
