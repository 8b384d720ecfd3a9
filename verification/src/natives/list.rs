//! List construction native.

use vstd::prelude::*;

use crate::error::Error;
use crate::types::{self, dup, views_of, LispValue, NativeOp};

verus! {

broadcast use vstd::std_specs::vec::group_vec_axioms, vstd::seq::group_seq_axioms;

/// `list`: a list holding the already-evaluated arguments in order.
pub fn list_c(args: &Vec<LispValue>) -> (r: Result<LispValue, Error>)
    ensures
        crate::evaluator::native_matches(NativeOp::ListOf, views_of(args@), r),
{
    broadcast use crate::types::lemma_views_of;

    let mut out: Vec<LispValue> = Vec::new();
    let mut i: usize = 0;
    while i < args.len()
        invariant
            i <= args@.len(),
            out@.len() == i as int,
            forall|j: int| 0 <= j < i ==> crate::types::lisp_view(out@[j])
                == crate::types::lisp_view(#[trigger] args@[j]),
        decreases args@.len() - i,
    {
        let e = dup(&args[i]);
        out.push(e);
        i = i + 1;
    }
    proof {
        assert(views_of(out@) =~= views_of(args@));
    }
    Result::Ok(types::list(out))
}

} // verus!
