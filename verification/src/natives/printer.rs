//! Printing natives: `display` renders bare, `write` renders readably.

use vstd::prelude::*;

use crate::error::Error;
use crate::printer::Printer;
use crate::types::{self, views_of, LispValue, NativeOp};

verus! {

broadcast use vstd::std_specs::vec::group_vec_axioms, vstd::seq::group_seq_axioms;

/// `display`: the bare rendering of the first argument, as a string.
pub fn display(args: &Vec<LispValue>) -> (r: Result<LispValue, Error>)
    ensures
        crate::evaluator::native_matches(NativeOp::Display, views_of(args@), r),
{
    broadcast use crate::types::lemma_views_of;

    if args.len() < 1 {
        return Result::Err(Error::TypeError);
    }
    let printer = Printer::new();
    let text = printer.print(&args[0], false);
    Result::Ok(types::string(text))
}

/// `write`: the readable rendering of the first argument, as a string.
pub fn write(args: &Vec<LispValue>) -> (r: Result<LispValue, Error>)
    ensures
        crate::evaluator::native_matches(NativeOp::Write, views_of(args@), r),
{
    broadcast use crate::types::lemma_views_of;

    if args.len() < 1 {
        return Result::Err(Error::TypeError);
    }
    let printer = Printer::new();
    let text = printer.print(&args[0], true);
    Result::Ok(types::string(text))
}

} // verus!
