//! Arithmetic natives.  Both operands must be integers; machine
//! arithmetic wraps in 64 bits.

use vstd::prelude::*;

use crate::error::Error;
use crate::evaluator::{apply_native_sp, wrap_i64};
use crate::types::{self, views_of, LispType, LispValue, NativeOp};

verus! {

broadcast use vstd::std_specs::vec::group_vec_axioms, vstd::seq::group_seq_axioms;

/// `+`: the wrapped 64-bit sum of two integers.
pub fn add(args: &Vec<LispValue>) -> (r: Result<LispValue, Error>)
    ensures
        crate::evaluator::native_matches(NativeOp::Add, views_of(args@), r),
{
    broadcast use crate::types::lemma_views_of;

    if args.len() < 2 {
        return Result::Err(Error::TypeError);
    }
    match (&args[0], &args[1]) {
        (LispType::Integer(i1), LispType::Integer(i2)) => {
            let s = i1.wrapping_add(*i2);
            proof {
                assert(s as int == wrap_i64(*i1 + *i2));
            }
            Result::Ok(types::integer(s))
        },
        _ => Result::Err(Error::TypeError),
    }
}

/// `-`: the wrapped 64-bit difference of two integers.
pub fn sub(args: &Vec<LispValue>) -> (r: Result<LispValue, Error>)
    ensures
        crate::evaluator::native_matches(NativeOp::Sub, views_of(args@), r),
{
    broadcast use crate::types::lemma_views_of;

    if args.len() < 2 {
        return Result::Err(Error::TypeError);
    }
    match (&args[0], &args[1]) {
        (LispType::Integer(i1), LispType::Integer(i2)) => {
            let s = i1.wrapping_sub(*i2);
            proof {
                assert(s as int == wrap_i64(*i1 - *i2));
            }
            Result::Ok(types::integer(s))
        },
        _ => Result::Err(Error::TypeError),
    }
}

} // verus!
