//! The native registry: the fixed mapping from symbol names to native
//! operations, installed into a fresh root environment at startup.

use vstd::prelude::*;

use crate::env::{arena_wf, env_new, env_set, Env, EnvArena, SpFrame};
use crate::error::Error;
use crate::evaluator::wf_state;
use crate::types::{
    self, entry_views_of, LispType, LispValue, NativeOp,
};

verus! {

broadcast use vstd::std_specs::vec::group_vec_axioms, vstd::seq::group_seq_axioms, vstd::map::group_map_axioms, vstd::set::group_set_axioms;

/// The binding table of the root environment: each native name bound
/// to its native-function value.
pub open spec fn native_table() -> Map<Seq<char>, crate::types::SpVal> {
    Map::empty().insert(seq!['+'], crate::types::SpVal::Native(NativeOp::Add)).insert(
        seq!['-'],
        crate::types::SpVal::Native(NativeOp::Sub),
    ).insert(seq!['r', 'e', 'a', 'd'], crate::types::SpVal::Native(NativeOp::Read)).insert(
        seq!['l', 'i', 's', 't'],
        crate::types::SpVal::Native(NativeOp::ListOf),
    ).insert(
        seq!['s', 't', 'r', 'i', 'n', 'g', '-', 'a', 'p', 'p', 'e', 'n', 'd'],
        crate::types::SpVal::Native(NativeOp::StringAppend),
    ).insert(seq!['h', 'a', 's', 'h'], crate::types::SpVal::Native(NativeOp::Hash)).insert(
        seq!['h', 'a', 's', 'h', '-', 's', 'e', 't'],
        crate::types::SpVal::Native(NativeOp::HashSet),
    ).insert(
        seq!['d', 'i', 's', 'p', 'l', 'a', 'y'],
        crate::types::SpVal::Native(NativeOp::Display),
    ).insert(seq!['w', 'r', 'i', 't', 'e'], crate::types::SpVal::Native(NativeOp::Write))
}

/// The native registry as bindings: name, native-function value.
fn ns() -> (r: Vec<(String, LispValue)>)
    ensures
        crate::env::table_of(r@) == native_table(),
{
    proof {
        reveal_strlit("+");
        reveal_strlit("-");
        reveal_strlit("read");
        reveal_strlit("list");
        reveal_strlit("string-append");
        reveal_strlit("hash");
        reveal_strlit("hash-set");
        reveal_strlit("display");
        reveal_strlit("write");
        assert(("+")@ =~= seq!['+']);
        assert(("-")@ =~= seq!['-']);
        assert(("read")@ =~= seq!['r', 'e', 'a', 'd']);
        assert(("list")@ =~= seq!['l', 'i', 's', 't']);
        assert(("string-append")@ =~= seq![
            's', 't', 'r', 'i', 'n', 'g', '-', 'a', 'p', 'p', 'e', 'n', 'd',
        ]);
        assert(("hash")@ =~= seq!['h', 'a', 's', 'h']);
        assert(("hash-set")@ =~= seq!['h', 'a', 's', 'h', '-', 's', 'e', 't']);
        assert(("display")@ =~= seq!['d', 'i', 's', 'p', 'l', 'a', 'y']);
        assert(("write")@ =~= seq!['w', 'r', 'i', 't', 'e']);
    }
    let mut r: Vec<(String, LispValue)> = Vec::new();
    let ghost s0 = r@;
    r.push(("+".to_owned(), types::native_function(NativeOp::Add)));
    proof {
        assert(r@.subrange(0, r@.len() - 1) =~= s0);
    }
    let ghost s1 = r@;
    r.push(("-".to_owned(), types::native_function(NativeOp::Sub)));
    proof {
        assert(r@.subrange(0, r@.len() - 1) =~= s1);
    }
    let ghost s2 = r@;
    r.push(("read".to_owned(), types::native_function(NativeOp::Read)));
    proof {
        assert(r@.subrange(0, r@.len() - 1) =~= s2);
    }
    let ghost s3 = r@;
    r.push(("list".to_owned(), types::native_function(NativeOp::ListOf)));
    proof {
        assert(r@.subrange(0, r@.len() - 1) =~= s3);
    }
    let ghost s4 = r@;
    r.push(("string-append".to_owned(), types::native_function(NativeOp::StringAppend)));
    proof {
        assert(r@.subrange(0, r@.len() - 1) =~= s4);
    }
    let ghost s5 = r@;
    r.push(("hash".to_owned(), types::native_function(NativeOp::Hash)));
    proof {
        assert(r@.subrange(0, r@.len() - 1) =~= s5);
    }
    let ghost s6 = r@;
    r.push(("hash-set".to_owned(), types::native_function(NativeOp::HashSet)));
    proof {
        assert(r@.subrange(0, r@.len() - 1) =~= s6);
    }
    let ghost s7 = r@;
    r.push(("display".to_owned(), types::native_function(NativeOp::Display)));
    proof {
        assert(r@.subrange(0, r@.len() - 1) =~= s7);
    }
    let ghost s8 = r@;
    r.push(("write".to_owned(), types::native_function(NativeOp::Write)));
    proof {
        assert(r@.subrange(0, r@.len() - 1) =~= s8);
        assert(s0 =~= Seq::<(String, LispValue)>::empty());
        reveal_with_fuel(crate::env::table_of, 12);
        assert(crate::env::table_of(r@) =~~= native_table());
    }
    r
}

/// Every value of the native table is a native-function value, so it
/// is closed for any frame count.
proof fn lemma_native_table_closed(n: int)
    ensures
        forall|k: Seq<char>| #[trigger]
            native_table().contains_key(k) ==> crate::evaluator::val_closed(
                native_table()[k],
                n,
            ),
{
    assert forall|k: Seq<char>| #[trigger]
        native_table().contains_key(k) implies crate::evaluator::val_closed(
        native_table()[k],
        n,
    ) by {
        assert(native_table()[k] is Native);
    }
}

/// Creates the root environment, with no parent, holding every native
/// builtin under its name.
#[verifier::loop_isolation(false)]
pub fn create(arena: &mut EnvArena) -> (e: Env)
    requires
        wf_state(old(arena)@),
    ensures
        e == old(arena)@.len(),
        final(arena)@ == old(arena)@.push(
            SpFrame { table: native_table(), outer: Option::None },
        ),
        wf_state(final(arena)@),
{
    let e = env_new(arena, Option::None);
    let bindings = ns();
    let ghost all = bindings@;
    let mut i: usize = 0;
    while i < bindings.len()
        invariant
            bindings@ == all,
            e == old(arena)@.len(),
            arena@ == old(arena)@.push(
                SpFrame {
                    table: crate::env::table_of(all.subrange(0, i as int)),
                    outer: Option::None,
                },
            ),
            i <= all.len(),
        decreases all.len() - i,
    {
        let name = bindings[i].0.clone();
        let value = crate::types::dup(&bindings[i].1);
        proof {
            assert(arena_wf(arena@)) by {
                assert forall|q: int| 0 <= q < arena@.len() implies crate::env::frame_wf(
                    #[trigger] arena@[q],
                    q,
                ) by {
                    if q < old(arena)@.len() {
                        assert(crate::env::frame_wf(old(arena)@[q], q));
                    }
                }
            }
        }
        env_set(arena, e, name.as_str(), value);
        proof {
            assert(all.subrange(0, i + 1).subrange(0, i as int) =~= all.subrange(0, i as int));
            assert(all.subrange(0, i + 1)[i as int] == all[i as int]);
            assert(crate::env::table_of(all.subrange(0, i + 1)) == crate::env::table_of(
                all.subrange(0, i as int),
            ).insert(all[i as int].0@, crate::types::lisp_view(all[i as int].1)));
            assert(arena@ =~= old(arena)@.push(
                SpFrame {
                    table: crate::env::table_of(all.subrange(0, i + 1)),
                    outer: Option::None,
                },
            ));
        }
        i = i + 1;
    }
    proof {
        assert(all.subrange(0, all.len() as int) =~= all);
        assert(final(arena)@ =~= old(arena)@.push(
            SpFrame { table: native_table(), outer: Option::None },
        ));
        lemma_native_table_closed(final(arena)@.len() as int);
        assert forall|q: int, k: Seq<char>|
            0 <= q < final(arena)@.len() && (#[trigger] final(arena)@[q].table.contains_key(
                k,
            )) implies crate::evaluator::val_closed(
            final(arena)@[q].table[k],
            final(arena)@.len() as int,
        ) by {
            if q < old(arena)@.len() {
                assert(old(arena)@[q].table.contains_key(k));
                crate::evaluator::lemma_val_closed_grow(
                    old(arena)@[q].table[k],
                    old(arena)@.len() as int,
                    final(arena)@.len() as int,
                );
            }
        }
        assert(arena_wf(final(arena)@)) by {
            assert forall|q: int| 0 <= q < final(arena)@.len() implies crate::env::frame_wf(
                #[trigger] final(arena)@[q],
                q,
            ) by {
                if q < old(arena)@.len() {
                    assert(crate::env::frame_wf(old(arena)@[q], q));
                }
            }
        }
    }
    e
}


/// Dispatches one native operation to its implementation; the result
/// is exactly what `apply_native_sp` prescribes.
pub fn call_native(op: NativeOp, args: &Vec<LispValue>) -> (r: Result<LispValue, Error>)
    ensures
        crate::evaluator::native_matches(op, crate::types::views_of(args@), r),
{
    match op {
        NativeOp::Add => crate::natives::math::add(args),
        NativeOp::Sub => crate::natives::math::sub(args),
        NativeOp::ListOf => crate::natives::list::list_c(args),
        NativeOp::StringAppend => crate::natives::string::string_append(args),
        NativeOp::Hash => crate::natives::hash::hash(args),
        NativeOp::HashSet => crate::natives::hash::hash_set(args),
        NativeOp::Display => crate::natives::printer::display(args),
        NativeOp::Write => crate::natives::printer::write(args),
        NativeOp::Read => crate::natives::reader::read(args),
    }
}

} // verus!
