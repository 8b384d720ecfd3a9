//! The error taxonomy.  Every failure is recoverable at the
//! read-eval-print boundary; none aborts the process.

use vstd::prelude::*;

use crate::types::{LispValue, SpVal};

verus! {

/// The model of an error: text payloads as character sequences, the
/// offending value of a failed application as its model.
#[verifier::ext_equal]
pub enum SpErr {
    Interrupted,
    Eof,
    UnexpectedCharacter(char),
    ParseError,
    CommandNotFound(Seq<char>),
    UndefinedBinding(Seq<char>),
    ApplyEmptyList,
    ApplyNonFunction(Box<SpVal>),
    TypeError,
    DepthExceeded,
}

/// What can go wrong, by layer: input, lexical, syntactic, shell, lookup,
/// application, and native-argument type errors.  `DepthExceeded` reports
/// evaluation nested beyond the evaluator's fixed depth budget, in place
/// of exhausting the host stack.
#[derive(Debug, PartialEq)]
pub enum Error {
    // input
    Interrupted,
    Eof,
    // lexer
    UnexpectedCharacter(char),
    // parser
    ParseError,
    // shell
    CommandNotFound(String),
    // lisp
    UndefinedBinding(String),
    ApplyEmptyList,
    ApplyNonFunction(LispValue),
    TypeError,
    DepthExceeded,
}

pub open spec fn error_view(e: Error) -> SpErr {
    match e {
        Error::Interrupted => SpErr::Interrupted,
        Error::Eof => SpErr::Eof,
        Error::UnexpectedCharacter(c) => SpErr::UnexpectedCharacter(c),
        Error::ParseError => SpErr::ParseError,
        Error::CommandNotFound(s) => SpErr::CommandNotFound(s@),
        Error::UndefinedBinding(s) => SpErr::UndefinedBinding(s@),
        Error::ApplyEmptyList => SpErr::ApplyEmptyList,
        Error::ApplyNonFunction(v) => SpErr::ApplyNonFunction(Box::new(v@)),
        Error::TypeError => SpErr::TypeError,
        Error::DepthExceeded => SpErr::DepthExceeded,
    }
}

impl View for Error {
    type V = SpErr;

    open spec fn view(&self) -> SpErr {
        error_view(*self)
    }
}

} // verus!
