//! Hashmap natives.  Hash operations are persistent: they never mutate
//! their arguments, they return freshly built tables.

use vstd::prelude::*;

use crate::error::Error;
use crate::evaluator::{hash_build, upsert};
use crate::text::str_eqs;
use crate::types::{
    self, dup, entry_views_of, views_of, LispType, LispValue, NativeOp, SpVal,
};

verus! {

broadcast use vstd::std_specs::vec::group_vec_axioms, vstd::seq::group_seq_axioms;

/// Replacing the first entry with key `k`, when none comes before `i`,
/// is `upsert`.
proof fn lemma_upsert_found(ps: Seq<(Seq<char>, SpVal)>, i: int, k: Seq<char>, v: SpVal)
    requires
        0 <= i < ps.len(),
        ps[i].0 == k,
        forall|j: int| 0 <= j < i ==> (#[trigger] ps[j]).0 != k,
    ensures
        upsert(ps, k, v) == ps.update(i, (k, v)),
    decreases ps.len(),
{
    if i == 0 {
        assert(upsert(ps, k, v) =~= ps.update(0, (k, v)));
    } else {
        let rest = ps.subrange(1, ps.len() as int);
        assert forall|j: int| 0 <= j < i - 1 implies (#[trigger] rest[j]).0 != k by {
            assert(rest[j] == ps[j + 1]);
        }
        lemma_upsert_found(rest, i - 1, k, v);
        assert(upsert(ps, k, v) =~= ps.update(i, (k, v)));
    }
}

/// Appending a fresh entry, when the key is absent, is `upsert`.
proof fn lemma_upsert_absent(ps: Seq<(Seq<char>, SpVal)>, k: Seq<char>, v: SpVal)
    requires
        forall|j: int| 0 <= j < ps.len() ==> (#[trigger] ps[j]).0 != k,
    ensures
        upsert(ps, k, v) == ps.push((k, v)),
    decreases ps.len(),
{
    if ps.len() == 0 {
        assert(upsert(ps, k, v) =~= ps.push((k, v)));
    } else {
        let rest = ps.subrange(1, ps.len() as int);
        assert forall|j: int| 0 <= j < rest.len() implies (#[trigger] rest[j]).0 != k by {
            assert(rest[j] == ps[j + 1]);
        }
        lemma_upsert_absent(rest, k, v);
        assert(upsert(ps, k, v) =~= ps.push((k, v)));
    }
}

/// Replaces the binding of `key` in `entries`, or appends one.
#[verifier::loop_isolation(false)]
fn upsert_entries(entries: &mut Vec<(String, LispValue)>, key: String, value: LispValue)
    ensures
        entry_views_of(final(entries)@) == upsert(entry_views_of(old(entries)@), key@, value@),
{
    broadcast use crate::types::lemma_entry_views_of;

    let ghost orig = entries@;
    let n = entries.len();
    let mut i: usize = 0;
    while i < n
        invariant
            n == entries@.len(),
            entries@ == orig,
            i <= n,
            forall|j: int| 0 <= j < i ==> (#[trigger] orig[j]).0@ != key@,
        decreases n - i,
    {
        if str_eqs(entries[i].0.as_str(), key.as_str()) {
            let pair = (key, value);
            let ghost entry = pair;
            entries.set(i, pair);
            proof {
                lemma_upsert_found(entry_views_of(orig), i as int, entry.0@, crate::types::lisp_view(entry.1));
                assert(entry_views_of(entries@) =~= entry_views_of(orig).update(
                    i as int,
                    (entry.0@, crate::types::lisp_view(entry.1)),
                ));
            }
            return ;
        }
        i = i + 1;
    }
    let pair = (key, value);
    let ghost entry = pair;
    entries.push(pair);
    proof {
        lemma_upsert_absent(entry_views_of(orig), entry.0@, crate::types::lisp_view(entry.1));
        assert(entries@.subrange(0, entries@.len() - 1) =~= orig);
        assert(entry_views_of(entries@) =~= entry_views_of(orig).push(
            (entry.0@, crate::types::lisp_view(entry.1)),
        ));
    }
}

/// `hash`: a table built from alternating string keys and values.
#[verifier::loop_isolation(false)]
pub fn hash(args: &Vec<LispValue>) -> (r: Result<LispValue, Error>)
    ensures
        crate::evaluator::native_matches(NativeOp::Hash, views_of(args@), r),
{
    broadcast use crate::types::lemma_views_of, crate::types::lemma_entry_views_of;

    let mut entries: Vec<(String, LispValue)> = Vec::new();
    let mut i: usize = 0;
    proof {
        assert(entry_views_of(entries@) =~= Seq::<(Seq<char>, SpVal)>::empty());
        assert(views_of(args@).subrange(0, args@.len() as int) =~= views_of(args@));
    }
    while i < args.len()
        invariant
            i <= args@.len(),
            hash_build(entry_views_of(entries@), views_of(args@).subrange(i as int, args@.len() as int))
                == hash_build(Seq::empty(), views_of(args@)),
        decreases args@.len() - i,
    {
        let ghost tail = views_of(args@).subrange(i as int, args@.len() as int);
        if i + 1 >= args.len() {
            return Result::Err(Error::TypeError);
        }
        let key = match &args[i] {
            LispType::Strn(k) => k.clone(),
            _ => {
                return Result::Err(Error::TypeError);
            },
        };
        let value = dup(&args[i + 1]);
        proof {
            assert(tail.subrange(2, tail.len() as int) =~= views_of(args@).subrange(
                i + 2,
                args@.len() as int,
            ));
        }
        upsert_entries(&mut entries, key, value);
        i = i + 2;
    }
    proof {
        assert(views_of(args@).subrange(args@.len() as int, args@.len() as int) =~= Seq::<
            SpVal,
        >::empty());
    }
    Result::Ok(types::hash_map(entries))
}

/// `hash-set`: a copy of the table with one binding added or replaced;
/// the given table itself is left untouched.
pub fn hash_set(args: &Vec<LispValue>) -> (r: Result<LispValue, Error>)
    ensures
        crate::evaluator::native_matches(NativeOp::HashSet, views_of(args@), r),
{
    broadcast use crate::types::lemma_views_of, crate::types::lemma_entry_views_of;

    if args.len() < 3 {
        return Result::Err(Error::TypeError);
    }
    let entries0 = match &args[0] {
        LispType::HashMap(ps) => ps,
        _ => {
            return Result::Err(Error::TypeError);
        },
    };
    let key = match &args[1] {
        LispType::Strn(k) => k.clone(),
        _ => {
            return Result::Err(Error::TypeError);
        },
    };
    let value = dup(&args[2]);
    let mut entries: Vec<(String, LispValue)> = Vec::new();
    let mut i: usize = 0;
    while i < entries0.len()
        invariant
            i <= entries0@.len(),
            entries@.len() == i as int,
            forall|j: int| 0 <= j < i ==> entries@[j].0@ == (#[trigger] entries0@[j]).0@
                && crate::types::lisp_view(entries@[j].1) == crate::types::lisp_view(
                entries0@[j].1,
            ),
        decreases entries0@.len() - i,
    {
        let k = entries0[i].0.clone();
        let v = dup(&entries0[i].1);
        entries.push((k, v));
        i = i + 1;
    }
    proof {
        assert(entry_views_of(entries@) =~= entry_views_of(entries0@));
    }
    upsert_entries(&mut entries, key, value);
    Result::Ok(types::hash_map(entries))
}

} // verus!
