//! String construction native.

use vstd::prelude::*;

use crate::error::Error;
use crate::evaluator::append_texts;
use crate::printer::Printer;
use crate::types::{self, views_of, LispValue, NativeOp};

verus! {

broadcast use vstd::std_specs::vec::group_vec_axioms, vstd::seq::group_seq_axioms;

/// `string-append`: the display renderings of all arguments,
/// concatenated into one string.
#[verifier::loop_isolation(false)]
pub fn string_append(args: &Vec<LispValue>) -> (r: Result<LispValue, Error>)
    ensures
        crate::evaluator::native_matches(NativeOp::StringAppend, views_of(args@), r),
{
    broadcast use crate::types::lemma_views_of;

    let printer = Printer::new();
    let mut acc = String::new();
    let mut i: usize = 0;
    proof {
        assert(views_of(args@).subrange(0, args@.len() as int) =~= views_of(args@));
        assert(Seq::<char>::empty() + append_texts(views_of(args@)) =~= append_texts(
            views_of(args@),
        ));
    }
    while i < args.len()
        invariant
            i <= args@.len(),
            acc@ + append_texts(views_of(args@).subrange(i as int, args@.len() as int))
                == append_texts(views_of(args@)),
        decreases args@.len() - i,
    {
        let ghost tail = views_of(args@).subrange(i as int, args@.len() as int);
        let piece = printer.print(&args[i], false);
        acc.append(piece.as_str());
        proof {
            assert(tail.subrange(1, tail.len() as int) =~= views_of(args@).subrange(
                i + 1,
                args@.len() as int,
            ));
        }
        i = i + 1;
    }
    proof {
        assert(views_of(args@).subrange(args@.len() as int, args@.len() as int) =~= Seq::<
            crate::types::SpVal,
        >::empty());
    }
    Result::Ok(types::string(acc))
}

} // verus!
