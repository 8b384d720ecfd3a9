//! The environment model: a mutable symbol table linked to an optional
//! parent, with parent-chain lookup.  The scope graph is held in an arena
//! of frames addressed by index, with an explicit parent index; an
//! environment reference is just its frame index.  Parent indices always
//! point at earlier frames, so every lookup chain reaches the root.

use vstd::prelude::*;

use crate::error::{Error, SpErr};
use crate::text::str_eqs;
use crate::types::{dup, LispValue, SpVal};

verus! {

broadcast use vstd::std_specs::vec::group_vec_axioms, vstd::seq::group_seq_axioms, vstd::map::group_map_axioms, vstd::set::group_set_axioms;

/// An environment reference: the index of a frame in the arena.
pub type Env = usize;

/// One scope: its own bindings and an optional parent environment.
#[derive(Debug, PartialEq)]
pub struct EnvType {
    pub data: Vec<(String, LispValue)>,
    pub outer: Option<Env>,
}

/// The model of one frame: a map from names to value models, and the
/// parent index.
#[verifier::ext_equal]
pub struct SpFrame {
    pub table: Map<Seq<char>, SpVal>,
    pub outer: Option<int>,
}

/// The model of a binding list: later entries shadow earlier ones.
pub open spec fn table_of(s: Seq<(String, LispValue)>) -> Map<Seq<char>, SpVal>
    decreases s.len(),
{
    if s.len() == 0 {
        Map::empty()
    } else {
        table_of(s.subrange(0, s.len() - 1)).insert(
            s[s.len() - 1].0@,
            crate::types::lisp_view(s[s.len() - 1].1),
        )
    }
}

impl View for EnvType {
    type V = SpFrame;

    open spec fn view(&self) -> SpFrame {
        SpFrame {
            table: table_of(self.data@),
            outer: match self.outer {
                Option::Some(o) => Option::Some(o as int),
                Option::None => Option::None,
            },
        }
    }
}

/// All scopes of one runtime session.
#[derive(Debug)]
pub struct EnvArena {
    pub frames: Vec<EnvType>,
}

impl View for EnvArena {
    type V = Seq<SpFrame>;

    open spec fn view(&self) -> Seq<SpFrame> {
        Seq::new(self.frames@.len(), |i: int| self.frames@[i]@)
    }
}

/// A frame is well formed at position `i` when its parent, if any, stands
/// strictly earlier in the arena.
pub open spec fn frame_wf(f: SpFrame, i: int) -> bool {
    match f.outer {
        Option::Some(o) => 0 <= o < i,
        Option::None => true,
    }
}

/// Every parent link points at an earlier frame.
pub open spec fn arena_wf(st: Seq<SpFrame>) -> bool {
    forall|i: int| 0 <= i < st.len() ==> frame_wf(#[trigger] st[i], i)
}

/// Parent-chain lookup: the innermost binding of `name` visible from
/// frame `e`, if any.
pub open spec fn lookup(st: Seq<SpFrame>, e: int, name: Seq<char>) -> Option<SpVal>
    decreases e,
        when 0 <= e < st.len() && arena_wf(st)
{
    if st[e].table.contains_key(name) {
        Option::Some(st[e].table[name])
    } else {
        match st[e].outer {
            Option::Some(o) => lookup(st, o, name),
            Option::None => Option::None,
        }
    }
}

impl EnvArena {
    /// A fresh arena holding no scopes yet.
    pub fn new() -> (r: EnvArena)
        ensures
            r@ == Seq::<SpFrame>::empty(),
            arena_wf(r@),
    {
        let r = EnvArena { frames: Vec::new() };
        proof {
            assert(r@ =~= Seq::<SpFrame>::empty());
        }
        r
    }
}

/// Creates an empty environment whose parent is `outer`, and returns its
/// reference.  The new frame stands at the end of the arena.
pub fn env_new(arena: &mut EnvArena, outer: Option<Env>) -> (e: Env)
    requires
        arena_wf(old(arena)@),
        (outer matches Option::Some(o) ==> o < old(arena)@.len()),
    ensures
        e == old(arena)@.len(),
        final(arena)@ == old(arena)@.push(
            SpFrame {
                table: Map::empty(),
                outer: match outer {
                    Option::Some(o) => Option::Some(o as int),
                    Option::None => Option::None,
                },
            },
        ),
        arena_wf(final(arena)@),
{
    let e = arena.frames.len();
    let frame = EnvType { data: Vec::new(), outer };
    arena.frames.push(frame);
    proof {
        assert(table_of(Seq::<(String, LispValue)>::empty()) =~= Map::<Seq<char>, SpVal>::empty());
        assert(final(arena)@ =~= old(arena)@.push(
            SpFrame {
                table: Map::empty(),
                outer: match outer {
                    Option::Some(o) => Option::Some(o as int),
                    Option::None => Option::None,
                },
            },
        ));
        assert forall|i: int| 0 <= i < final(arena)@.len() implies frame_wf(
            #[trigger] final(arena)@[i],
            i,
        ) by {
            if i < old(arena)@.len() {
                assert(frame_wf(old(arena)@[i], i));
            }
        }
    }
    e
}

/// The position of the last entry bound to `name`, if any: the one that
/// shadows all earlier bindings of that name.
#[verifier::loop_isolation(false)]
fn find_key(data: &Vec<(String, LispValue)>, name: &str) -> (r: Option<usize>)
    ensures
        match r {
            Option::Some(i) => i < data@.len() && data@[i as int].0@ == name@ && (forall|j: int|
                i < j < data@.len() ==> (#[trigger] data@[j]).0@ != name@),
            Option::None => forall|j: int|
                0 <= j < data@.len() ==> (#[trigger] data@[j]).0@ != name@,
        },
{
    let n = data.len();
    let mut i: usize = n;
    while i > 0
        invariant
            i <= n,
            n == data@.len(),
            forall|j: int| i <= j < n ==> (#[trigger] data@[j]).0@ != name@,
        decreases i,
    {
        i = i - 1;
        if str_eqs(data[i].0.as_str(), name) {
            return Option::Some(i);
        }
    }
    Option::None
}

/// Inserts or overwrites `name -> value` in the local table of `e` only;
/// the binding tables of all other frames are untouched.
#[verifier::loop_isolation(false)]
pub fn env_set(arena: &mut EnvArena, e: Env, name: &str, value: LispValue)
    requires
        arena_wf(old(arena)@),
        e < old(arena)@.len(),
    ensures
        final(arena)@ == old(arena)@.update(
            e as int,
            SpFrame {
                table: old(arena)@[e as int].table.insert(name@, value@),
                outer: old(arena)@[e as int].outer,
            },
        ),
        arena_wf(final(arena)@),
{
    let frame = &mut arena.frames[e];
    let ghost old_data = frame.data@;
    match find_key(&frame.data, name) {
        Option::Some(i) => {
            let owned = name.to_owned();
            let pair = (owned, value);
            let ghost entry = pair;
            frame.data.set(i, pair);
            proof {
                lemma_table_of_update(old_data, i as int, name@, value@);
                assert(frame.data@ == old_data.update(i as int, entry));
                assert(entry.0@ == name@ && crate::types::lisp_view(entry.1) == value@);
                assert(table_of(frame.data@) == table_of(old_data).insert(name@, value@));
            }
        },
        Option::None => {
            let owned = name.to_owned();
            frame.data.push((owned, value));
            proof {
                assert(frame.data@.subrange(0, frame.data@.len() - 1) =~= old_data);
                assert(table_of(frame.data@) == table_of(old_data).insert(name@, value@));
            }
        },
    }
    proof {
        assert(arena.frames@.len() == old(arena).frames@.len());
        assert(forall|k: int|
            0 <= k < arena.frames@.len() && k != e ==> arena.frames@[k] == old(
                arena,
            ).frames@[k]);
        assert(table_of(arena.frames@[e as int].data@) == old(arena)@[e as int].table.insert(
            name@,
            value@,
        ));
        assert(final(arena)@ =~~= old(arena)@.update(
            e as int,
            SpFrame {
                table: old(arena)@[e as int].table.insert(name@, value@),
                outer: old(arena)@[e as int].outer,
            },
        ));
        assert forall|k: int| 0 <= k < final(arena)@.len() implies frame_wf(
            #[trigger] final(arena)@[k],
            k,
        ) by {
            assert(frame_wf(old(arena)@[k], k));
        }
    }
}

/// Replacing the entry at `i`, whose key occurs nowhere later, denotes
/// the same table as appending a fresh binding of that key.
proof fn lemma_table_of_update(s: Seq<(String, LispValue)>, i: int, name: Seq<char>, v: SpVal)
    requires
        0 <= i < s.len(),
        s[i].0@ == name,
        forall|j: int| i < j < s.len() ==> (#[trigger] s[j]).0@ != name,
    ensures
        forall|t: (String, LispValue)|
            t.0@ == name && crate::types::lisp_view(t.1) == v ==> table_of(s.update(i, t))
                == table_of(s).insert(name, v),
    decreases s.len(),
{
    assert forall|t: (String, LispValue)|
        t.0@ == name && crate::types::lisp_view(t.1) == v implies table_of(s.update(i, t))
        == table_of(s).insert(name, v) by {
        let su = s.update(i, t);
        if i == s.len() - 1 {
            assert(su.subrange(0, su.len() - 1) =~= s.subrange(0, s.len() - 1));
            assert(su[su.len() - 1] == t);
            assert(table_of(su) == table_of(su.subrange(0, su.len() - 1)).insert(
                t.0@,
                crate::types::lisp_view(t.1),
            ));
            assert(table_of(s) == table_of(s.subrange(0, s.len() - 1)).insert(
                s[s.len() - 1].0@,
                crate::types::lisp_view(s[s.len() - 1].1),
            ));
            assert(s[s.len() - 1].0@ == name);
            assert(table_of(su) =~~= table_of(s).insert(name, v));
        } else {
            lemma_table_of_update(s.subrange(0, s.len() - 1), i, name, v);
            assert(su.subrange(0, su.len() - 1) =~= s.subrange(0, s.len() - 1).update(i, t));
            assert(su[su.len() - 1] == s[s.len() - 1]);
            assert(table_of(su) == table_of(s.subrange(0, s.len() - 1)).insert(name, v).insert(
                s[s.len() - 1].0@,
                crate::types::lisp_view(s[s.len() - 1].1),
            ));
            assert(s[s.len() - 1].0@ != name);
            assert(table_of(s.subrange(0, s.len() - 1)).insert(name, v).insert(
                s[s.len() - 1].0@,
                crate::types::lisp_view(s[s.len() - 1].1),
            ) =~~= table_of(s).insert(name, v));
        }
    }
}

/// The frame, if any, in whose own table `name` is bound, searching from
/// `e` up the parent chain.
pub open spec fn find_frame(st: Seq<SpFrame>, e: int, name: Seq<char>) -> Option<int>
    decreases e,
        when 0 <= e < st.len() && arena_wf(st)
{
    if st[e].table.contains_key(name) {
        Option::Some(e)
    } else {
        match st[e].outer {
            Option::Some(o) => find_frame(st, o, name),
            Option::None => Option::None,
        }
    }
}

/// Walks the parent chain from `e` and returns the first frame that binds
/// `name` in its own table.
#[verifier::loop_isolation(false)]
pub fn env_find(arena: &EnvArena, e: Env, name: &str) -> (r: Option<Env>)
    requires
        arena_wf(arena@),
        e < arena@.len(),
    ensures
        match r {
            Option::Some(f) => find_frame(arena@, e as int, name@) == Option::Some(f as int) && f
                < arena@.len(),
            Option::None => find_frame(arena@, e as int, name@) is None,
        },
    decreases e,
{
    let frame = &arena.frames[e];
    let n = frame.data.len();
    let mut i: usize = 0;
    while i < n
        invariant
            arena_wf(arena@),
            e < arena@.len(),
            n == frame.data.len(),
            frame == &arena.frames[e as int],
            i <= n,
            forall|j: int| 0 <= j < i ==> (#[trigger] frame.data@[j]).0@ != name@,
        decreases n - i,
    {
        if str_eqs(frame.data[i].0.as_str(), name) {
            proof {
                lemma_table_of_contains(frame.data@, i as int, name@);
            }
            return Option::Some(e);
        }
        i = i + 1;
    }
    proof {
        lemma_table_of_absent(frame.data@, name@);
    }
    match frame.outer {
        Option::Some(o) => env_find(arena, o, name),
        Option::None => Option::None,
    }
}

/// A binding list whose entry `i` has key `name` denotes a table that
/// contains `name`.
proof fn lemma_table_of_contains(s: Seq<(String, LispValue)>, i: int, name: Seq<char>)
    requires
        0 <= i < s.len(),
        s[i].0@ == name,
    ensures
        table_of(s).contains_key(name),
    decreases s.len(),
{
    if i == s.len() - 1 {
    } else {
        lemma_table_of_contains(s.subrange(0, s.len() - 1), i, name);
    }
}

/// A binding list none of whose keys is `name` denotes a table without
/// `name`.
proof fn lemma_table_of_absent(s: Seq<(String, LispValue)>, name: Seq<char>)
    requires
        forall|j: int| 0 <= j < s.len() ==> (#[trigger] s[j]).0@ != name,
    ensures
        !table_of(s).contains_key(name),
    decreases s.len(),
{
    if s.len() > 0 {
        lemma_table_of_absent(s.subrange(0, s.len() - 1), name);
    }
}

/// The value bound at entry `i` of a binding list whose key occurs
/// nowhere later is the value the table assigns to that key.
proof fn lemma_table_of_value(s: Seq<(String, LispValue)>, i: int, name: Seq<char>)
    requires
        0 <= i < s.len(),
        s[i].0@ == name,
        forall|j: int| i < j < s.len() ==> (#[trigger] s[j]).0@ != name,
    ensures
        table_of(s).contains_key(name),
        table_of(s)[name] == crate::types::lisp_view(s[i].1),
    decreases s.len(),
{
    if i == s.len() - 1 {
    } else {
        lemma_table_of_value(s.subrange(0, s.len() - 1), i, name);
    }
}

/// Searches the table of `e`, then its parents; fails with
/// `UndefinedBinding` once the chain is exhausted.
#[verifier::loop_isolation(false)]
pub fn env_get(arena: &EnvArena, e: Env, name: &str) -> (r: Result<LispValue, Error>)
    requires
        arena_wf(arena@),
        e < arena@.len(),
    ensures
        match r {
            Result::Ok(v) => lookup(arena@, e as int, name@) == Option::Some(v@),
            Result::Err(err) => lookup(arena@, e as int, name@) is None && err@
                == SpErr::UndefinedBinding(name@),
        },
{
    proof {
        lemma_lookup_find(arena@, e as int, name@);
    }
    match env_find(arena, e, name) {
        Option::Some(f) => {
            let frame = &arena.frames[f];
            let n = frame.data.len();
            // scan from the end: the latest binding shadows earlier ones
            let mut i: usize = n;
            while i > 0
                invariant
                    arena_wf(arena@),
                    f < arena@.len(),
                    n == frame.data.len(),
                    frame == &arena.frames[f as int],
                    i <= n,
                    arena@[f as int].table.contains_key(name@),
                    forall|j: int| i <= j < n ==> (#[trigger] frame.data@[j]).0@ != name@,
                decreases i,
            {
                i = i - 1;
                if str_eqs(frame.data[i].0.as_str(), name) {
                    proof {
                        lemma_table_of_value(frame.data@, i as int, name@);
                    }
                    return Result::Ok(dup(&frame.data[i].1));
                }
            }
            proof {
                lemma_table_of_absent(frame.data@, name@);
            }
            // unreachable: the frame was found to contain the binding
            Result::Err(Error::UndefinedBinding(name.to_owned()))
        },
        Option::None => Result::Err(Error::UndefinedBinding(name.to_owned())),
    }
}

/// `lookup` succeeds exactly where `find_frame` finds a frame, and
/// returns the value that frame binds.
pub proof fn lemma_lookup_find(st: Seq<SpFrame>, e: int, name: Seq<char>)
    requires
        arena_wf(st),
        0 <= e < st.len(),
    ensures
        match find_frame(st, e, name) {
            Option::Some(f) => 0 <= f < st.len() && st[f].table.contains_key(name) && lookup(
                st,
                e,
                name,
            ) == Option::Some(st[f].table[name]),
            Option::None => lookup(st, e, name) is None,
        },
    decreases e,
{
    if st[e].table.contains_key(name) {
    } else {
        match st[e].outer {
            Option::Some(o) => {
                assert(frame_wf(st[e], e));
                lemma_lookup_find(st, o, name);
            },
            Option::None => {},
        }
    }
}

} // verus!

