//! Stores into objects that are there.
//!
//! References are found through data types and vectors of parameters alone. In a heap
//! whose objects are well typed a store into any other object changes the references
//! of that object only, so that a heap stays in order where a good value is stored.

use vstd::prelude::*;
use crate::access::MAX_NESTING;
use crate::health::{
    lemma_good_closed, lemma_live_good, lemma_reaches_ends, lemma_reaches_ref,
    lemma_reaches_trans,
};
use crate::id;
use crate::region::NULL;
use crate::state::State;
use crate::survival::{law_store_keeps_heap, lemma_reaches_self};
use crate::uniquing::{lemma_plain_refs, lemma_svec_refs};

verus! {

impl State {
    /// Whether the object at `v` is well typed and references objects only.
    pub open spec fn local(self, v: u32) -> bool {
        &&& self.typed(v)
        &&& forall|x: u32| #[trigger]
            self.refs_of(v).contains(x) && x != NULL ==> self.obj(x) is Some
    }
}

proof fn lemma_tag_ref(s: State, v: u32)
    requires
        s.tag(v) != NULL,
    ensures
        s.refs_of(v).contains(s.tag(v)),
{
    reveal(State::refs_of);
    assert(s.refs_of(v)[0] == s.tag(v));
}

/// One step along a reference to an object that is well typed.
proof fn lemma_step(s: State, v: u32, a: u32, b: u32)
    requires
        s.reaches(v, a),
        s.obj(b) is Some,
        s.refs_of(a).contains(b),
        forall|w: u32| #[trigger] s.reaches(v, w) ==> s.local(w),
    ensures
        s.reaches(v, b),
        s.reaches(a, b),
        s.local(b),
{
    lemma_reaches_ends(s, v, a);
    lemma_reaches_ref(s, a, b);
    lemma_reaches_trans(s, v, a, b);
}

/// The parameters of a data type are reached from it.
proof fn lemma_parameters_reached(s: State, v: u32, t: u32)
    requires
        s.described(),
        s.reaches(v, t),
        s.tag(t) == s.builtin(id::DATATYPE),
        s.parameters(t) != NULL,
        forall|w: u32| #[trigger] s.reaches(v, w) ==> s.local(w),
    ensures
        s.reaches(v, s.parameters(t)),
        s.reaches(t, s.parameters(t)),
{
    let p = s.parameters(t);
    lemma_plain_refs(s, t, 5);
    assert(s.refs_of(t)[3] == s.word(t, 4 * 2int));
    assert(s.refs_of(t).contains(p));
    lemma_step(s, v, t, p);
}

/// What is read to tell whether instances of a type are plain bits is reached from it.
proof fn lemma_bits_reached(s: State, v: u32, t: u32, x: u32, fuel: nat)
    requires
        s.described(),
        s.obj(NULL) is None,
        s.reaches(v, t),
        s.bits_read(t, x, fuel),
        x != NULL,
        forall|w: u32| #[trigger] s.reaches(v, w) ==> s.local(w),
    ensures
        s.reaches(t, x),
    decreases fuel,
{
    if x == t {
        lemma_reaches_ends(s, v, t);
        lemma_reaches_self(s, t);
    } else {
        let p = s.parameters(t);
        lemma_parameters_reached(s, v, t);
        if x != p {
            let i = choose|i: int|
                0 <= i < s.svec_len(p) && s.bits_read(
                    #[trigger] s.svec_ref(p, i),
                    x,
                    (fuel - 1) as nat,
                );
            let c = s.svec_ref(p, i);
            lemma_svec_refs(s, p, s.svec_seq(p));
            assert(s.svec_seq(p)[i] == c);
            assert(s.refs_of(p)[1 + i] == c);
            assert(s.refs_of(p).contains(c));
            if c == NULL {
                assert(!s.is_datatype(c));
            }
            lemma_step(s, v, p, c);
            lemma_bits_reached(s, v, c, x, (fuel - 1) as nat);
            lemma_reaches_trans(s, t, p, c);
            lemma_reaches_trans(s, t, c, x);
        }
    }
}

/// What is read for the references of a well-typed object is reached from it.
proof fn lemma_reads_reached(s: State, v: u32, u: u32, x: u32)
    requires
        s.described(),
        s.obj(NULL) is None,
        s.reaches(v, u),
        s.reads(u, x),
        x != NULL,
        forall|w: u32| #[trigger] s.reaches(v, w) ==> s.local(w),
    ensures
        s.reaches(u, x),
{
    let t = s.tag(u);
    lemma_reaches_ends(s, v, u);
    assert(s.local(u));
    assert(t != NULL);
    if x == u {
        lemma_reaches_self(s, u);
    } else {
        lemma_tag_ref(s, u);
        lemma_step(s, v, u, t);
        if x != t {
            let p = s.parameters(t);
            if p == NULL {
                assert(s.svec_ref(p, 0) == NULL);
                assert(s.bits_read(NULL, x, MAX_NESTING as nat));
                assert(!s.is_datatype(NULL));
                assert(false);
            }
            lemma_parameters_reached(s, v, t);
            lemma_reaches_trans(s, u, t, p);
            if x != p {
                let c = s.svec_ref(p, 0);
                let n = MAX_NESTING as nat;
                assert(s.bits_read(c, x, n));
                if c == NULL {
                    assert(!s.is_datatype(c));
                }
                assert(s.local(p));
                assert(0 < s.svec_len(p));
                lemma_svec_refs(s, p, s.svec_seq(p));
                assert(s.svec_seq(p)[0] == c);
                assert(s.refs_of(p)[1] == c);
                assert(s.refs_of(p).contains(c));
                lemma_step(s, v, p, c);
                lemma_bits_reached(s, v, c, x, n);
                lemma_reaches_trans(s, u, p, c);
                lemma_reaches_trans(s, u, c, x);
            }
        }
    }
}

/// An object is good where all that it reaches is well typed and references objects.
pub proof fn lemma_local_good(s: State, v: u32)
    requires
        s.described(),
        s.obj(NULL) is None,
        s.obj(v) is Some,
        forall|w: u32| #[trigger] s.reaches(v, w) ==> s.local(w),
    ensures
        s.good(v),
{
    assert forall|u: u32| #[trigger] s.reaches(v, u) implies s.sound(u) by {
        assert(s.local(u));
        assert forall|k: int|
            #![trigger s.refs_of(u)[k]]
            0 <= k < s.refs_of(u).len() && s.refs_of(u)[k] != NULL implies s.obj(
            s.refs_of(u)[k],
        ) is Some by {
            assert(s.refs_of(u).contains(s.refs_of(u)[k]));
        }
        assert forall|x: u32| #[trigger] s.reads(u, x) && x != NULL implies s.reaches(u, x) by {
            lemma_reads_reached(s, v, u, x);
        }
        if s.tag(u) == s.builtin(id::DATATYPE) && s.parameters(u) != NULL {
            lemma_parameters_reached(s, v, u);
        }
    }
}

/// Good objects are well typed and reference objects.
pub proof fn lemma_good_is_local(s: State, v: u32, u: u32)
    requires
        s.good(v),
        s.reaches(v, u),
        s.obj(NULL) is None,
    ensures
        s.local(u),
{
    lemma_reaches_ends(s, v, u);
    assert(s.sound(u));
    assert forall|x: u32| #[trigger] s.refs_of(u).contains(x) && x != NULL implies s.obj(
        x,
    ) is Some by {
        let k = choose|k: int| 0 <= k < s.refs_of(u).len() && s.refs_of(u)[k] == x;
        assert(s.obj(s.refs_of(u)[k]) is Some);
    }
}

// --- what a store leaves alone ----------------------------------------------

/// Whether `e` is `s` but for the payload of the object at `v` and collector bits.
pub open spec fn rewritten(s: State, e: State, v: u32) -> bool {
    &&& e.builtins == s.builtins
    &&& e.layouts == s.layouts
    &&& e.region == s.region
    &&& forall|u: u32| #[trigger] e.obj(u) is Some <==> s.obj(u) is Some
    &&& forall|u: u32| #[trigger] e.tag(u) == s.tag(u)
    &&& forall|u: u32| u != v ==> #[trigger] e.data(u) == s.data(u)
}

/// Whether the object at `v` is neither a data type nor a vector.
pub open spec fn ordinary(s: State, v: u32) -> bool {
    s.tag(v) != s.builtin(id::DATATYPE) && s.tag(v) != s.builtin(id::SVEC)
}

proof fn lemma_quiet_bits(s: State, e: State, v: u32, t: u32, fuel: nat)
    requires
        rewritten(s, e, v),
        ordinary(s, v),
        s.described(),
        s.obj(NULL) is None,
        forall|x: u32| #[trigger] s.bits_read(t, x, fuel) && x != NULL ==> s.typed(x),
    ensures
        s.is_bits(t, fuel) == e.is_bits(t, fuel),
    decreases fuel,
{
    assert(e.tag(t) == s.tag(t));
    if fuel > 0 && s.is_datatype(t) {
        assert(t != v);
        assert(e.data(t) == s.data(t));
        assert(s.bits_read(t, t, fuel));
        if !s.is_abstract(t) && !s.is_primitive(t) && s.is_tuple(t) && s.parameters(t) != NULL {
            let p = s.parameters(t);
            assert(s.typed(t));
            assert(p != v);
            assert(e.data(p) == s.data(p));
            assert forall|i: int| 0 <= i < s.svec_len(p) implies s.is_bits(
                #[trigger] s.svec_ref(p, i),
                (fuel - 1) as nat,
            ) == e.is_bits(e.svec_ref(p, i), (fuel - 1) as nat) && s.svec_ref(p, i) == e.svec_ref(
                p,
                i,
            ) by {
                let c = s.svec_ref(p, i);
                assert forall|x: u32| #[trigger]
                    s.bits_read(c, x, (fuel - 1) as nat) && x != NULL implies s.typed(x) by {
                    assert(s.bits_read(t, x, fuel));
                }
                lemma_quiet_bits(s, e, v, c, (fuel - 1) as nat);
            }
            assert forall|i: int| 0 <= i < s.svec_len(p) implies s.svec_ref(p, i)
                == #[trigger] e.svec_ref(p, i) by {
                assert(s.svec_ref(p, i) == e.svec_ref(p, i));
            }
        }
    }
}

/// A store into an ordinary object changes the references of no other good object.
#[verifier::rlimit(40)]
pub proof fn lemma_quiet(s: State, e: State, v: u32, u: u32)
    requires
        rewritten(s, e, v),
        ordinary(s, v),
        s.described(),
        s.obj(NULL) is None,
        s.good(u),
        s.obj(u) is Some,
        u != v,
    ensures
        e.refs_of(u) == s.refs_of(u),
{
    reveal(State::refs_of);
    let t = s.tag(u);
    lemma_reaches_self(s, u);
    assert(s.sound(u));
    assert(e.tag(u) == t && e.data(u) == s.data(u));
    assert(t != v);
    assert(e.data(t) == s.data(t) && e.tag(t) == s.tag(t));
    if !s.is_svec(t) && s.is_memory_type(t) {
        let p = s.parameters(t);
        let c = s.svec_ref(p, 0);
        let n = MAX_NESTING as nat;
        assert forall|x: u32| #[trigger] s.bits_read(c, x, n) && x != NULL implies s.typed(x) by {
            assert(s.reads(u, x));
            assert(s.sound(x));
        }
        assert(s.reads(u, t));
        assert(t != NULL);
        assert(s.reaches(u, t));
        assert(s.sound(t));
        if p != NULL {
            assert(p != v);
            assert(e.data(p) == s.data(p));
        } else {
            assert(e.obj(NULL) is None);
        }
        assert(e.svec_ref(p, 0) == c);
        lemma_quiet_bits(s, e, v, c, n);
        if s.is_datatype(c) {
            assert(c != v);
            assert(e.data(c) == s.data(c));
        }
        assert(e.tag(c) == s.tag(c));
        assert(s.elem_boxed(c) == e.elem_boxed(c));
        assert(s.element_refs(u) =~= e.element_refs(u));
    }
    assert(s.refs_of(u) =~= e.refs_of(u));
}

// --- stores that keep a heap in order ---------------------------------------

/// Whether `u` is live, or reached from `r`.
pub open spec fn held(s: State, r: u32, u: u32) -> bool {
    s.live(u) || s.reaches(r, u)
}

/// Whether the references of what is held are those of `s`, but for the object at `v`,
/// which references nothing but what it did and `r`.
pub open spec fn one_store(s: State, e: State, v: u32, r: u32) -> bool {
    &&& forall|u: u32| held(s, r, u) && u != v ==> #[trigger] e.refs_of(u) == s.refs_of(u)
    &&& forall|x: u32| #[trigger]
        e.refs_of(v).contains(x) ==> x == r || s.refs_of(v).contains(x)
}

proof fn lemma_held_closed(s: State, r: u32, u: u32, w: u32)
    requires
        held(s, r, u),
        s.reaches(u, w),
    ensures
        held(s, r, w),
{
    if s.live(u) {
        crate::health::lemma_live_closed(s, u, w);
    } else {
        lemma_reaches_trans(s, r, u, w);
    }
}

/// What is reached after the store was reached before it, or through `v` and from `r`.
proof fn lemma_store_path(s: State, e: State, v: u32, r: u32, path: Seq<u32>, k: int)
    requires
        rewritten(s, e, v),
        one_store(s, e, v, r),
        s.obj(NULL) is None,
        s.good(r),
        e.leads(path),
        held(s, r, path[0]),
        0 <= k < path.len(),
    ensures
        held(s, r, path[k]),
        s.reaches(path[0], path[k]) || (s.reaches(path[0], v) && s.reaches(r, path[k])),
    decreases k,
{
    let x = path[k];
    assert(e.obj(path[k]) is Some);
    assert(s.obj(x) is Some);
    if k == 0 {
        lemma_reaches_self(s, x);
    } else {
        lemma_store_path(s, e, v, r, path, k - 1);
        let w = path[k - 1];
        assert(e.refs_of(path[k - 1]).contains(path[k - 1 + 1]));
        assert(e.obj(path[k - 1]) is Some);
        assert(s.obj(w) is Some);
        if w != v {
            assert(e.refs_of(w) == s.refs_of(w));
        } else {
            assert(e.refs_of(v).contains(x));
        }
        if s.refs_of(w).contains(x) {
            lemma_reaches_ref(s, w, x);
            lemma_held_closed(s, r, w, x);
            if s.reaches(path[0], w) {
                lemma_reaches_trans(s, path[0], w, x);
            } else {
                lemma_reaches_trans(s, r, w, x);
            }
        } else {
            assert(x == r);
            lemma_reaches_self(s, r);
            if !s.reaches(path[0], w) {
                assert(s.reaches(path[0], v));
            }
        }
    }
}

/// Storing a good value keeps a heap healthy.
#[verifier::rlimit(40)]
pub proof fn lemma_store_healthy(s: State, e: State, v: u32, r: u32)
    requires
        s.healthy(),
        e.described(),
        e.heap_ok(),
        rewritten(s, e, v),
        e == (State { objs: e.objs, remembered: e.remembered, ..s }),
        one_store(s, e, v, r),
        s.good(r),
        e.typed(v),
        forall|u: u32| #[trigger] e.is_marked(u) == s.is_marked(u),
    ensures
        e.healthy(),
        e.root_list() == s.root_list(),
        forall|u: u32| #[trigger] held(s, r, u) ==> e.good(u),
        forall|u: u32, w: u32|
            held(s, r, u) && #[trigger] e.reaches(u, w) ==> s.reaches(u, w) || (s.reaches(u, v)
                && s.reaches(r, w)),
        forall|u: u32| #[trigger] e.live(u) ==> held(s, r, u),
        e.good(r),
{
    crate::slots::lemma_empty_places(s, 0, 0);
    reveal(State::root_list);
    assert(e.root_list() =~= s.root_list());
    assert(e.obj(NULL) is None);
    assert forall|u: u32, w: u32| held(s, r, u) && #[trigger] e.reaches(u, w) implies (s.reaches(
        u,
        w,
    ) || (s.reaches(u, v) && s.reaches(r, w))) && held(s, r, w) by {
        let path = choose|path: Seq<u32>| #[trigger]
            e.leads(path) && path[0] == u && path.last() == w;
        lemma_store_path(s, e, v, r, path, path.len() - 1);
    }
    assert forall|u: u32| #[trigger] held(s, r, u) implies e.good(u) by {
        lemma_held_object(s, r, u);
        assert(e.obj(u) is Some);
        assert forall|w: u32| #[trigger] e.reaches(u, w) implies e.local(w) by {
            assert(held(s, r, w));
            lemma_held_object(s, r, w);
            assert forall|x: u32| #[trigger] e.refs_of(w).contains(x) && x != NULL implies e.obj(
                x,
            ) is Some by {
                if w != v {
                    assert(e.refs_of(w) == s.refs_of(w));
                }
                if s.refs_of(w).contains(x) {
                    assert(s.obj(x) is Some);
                } else {
                    assert(s.obj(r) is Some);
                }
            }
            if w != v {
                assert(e.data(w) == s.data(w));
                assert(e.tag(s.tag(w)) == s.tag(s.tag(w)));
                assert(e.tag(s.parameters(w)) == s.tag(s.parameters(w)));
            }
        }
        lemma_local_good(e, u);
    }
    assert forall|x: u32| #[trigger] e.root_list().contains(x) implies e.good(x) by {
        assert(s.good(x));
        if x != NULL {
            lemma_reaches_self(s, x);
            assert(s.live(x));
            assert(held(s, r, x));
        }
    }
    assert forall|u: u32| #[trigger] e.is_marked(u) implies e.good(u) && held(s, r, u) by {
        assert(s.is_marked(u));
        lemma_reaches_self(s, u);
        assert(s.live(u));
    }
    assert forall|u: u32| #[trigger] e.live(u) implies held(s, r, u) by {
        let x = choose|x: u32|
            (e.root_list().contains(x) || e.is_marked(x)) && #[trigger] e.reaches(x, u);
        lemma_reaches_ends(e, x, u);
        assert(held(s, r, x)) by {
            if e.root_list().contains(x) {
                assert(s.good(x));
                lemma_reaches_self(s, x);
                assert(s.live(x));
            }
        }
    }
    if r != NULL {
        lemma_reaches_self(s, r);
        assert(held(s, r, r));
    }
}

proof fn lemma_held_object(s: State, r: u32, u: u32)
    requires
        s.healthy(),
        s.good(r),
        held(s, r, u),
    ensures
        s.obj(u) is Some,
        s.local(u),
        s.good(u),
        u != NULL,
{
    crate::slots::lemma_empty_places(s, 0, 0);
    if s.live(u) {
        lemma_live_good(s, u);
    } else {
        lemma_reaches_ends(s, r, u);
        lemma_good_closed(s, r, u);
    }
    lemma_reaches_self(s, u);
    lemma_good_is_local(s, u, u);
}

/// What a store through the barrier does to the objects.
pub proof fn lemma_set_ref(s: State, v: u32, i: int, r: u32)
    requires
        s.obj(v) is Some,
        0 <= i,
        i + 4 <= s.data(v).len(),
    ensures
        ({
            let e = s.set_ref(v, i, r);
            &&& rewritten(s, e, v)
            &&& e == (State { objs: e.objs, remembered: e.remembered, ..s })
            &&& forall|u: u32| #[trigger] e.is_marked(u) == s.is_marked(u)
            &&& e.data(v).len() == s.data(v).len()
            &&& e.word(v, i) == r
            &&& forall|j: int|
                0 <= j && (j + 4 <= i || i + 4 <= j) && j + 4 <= s.data(v).len()
                    ==> #[trigger] e.word(v, j) == s.word(v, j)
        }),
{
    let a = s.write_barrier(v, r);
    crate::writes::lemma_barrier(s, v, r);
    crate::writes::lemma_marks_stay(s, v, i, r);
    let e = s.set_ref(v, i, r);
    assert(a.obj(v) is Some);
    crate::health::lemma_word_only_at(a, v, i, r);
    assert forall|u: u32| #[trigger] e.tag(u) == s.tag(u) by {
        assert(a.tag(u) == s.tag(u));
        if u != v {
            assert(e.obj(u) == a.obj(u));
        }
    }
    assert forall|u: u32| u != v implies #[trigger] e.data(u) == s.data(u) by {
        assert(e.obj(u) == a.obj(u));
        assert(a.data(u) == s.data(u));
    }
    assert forall|u: u32| #[trigger] e.obj(u) is Some <==> s.obj(u) is Some by {
        assert(a.obj(u) is Some <==> s.obj(u) is Some);
        if u != v {
            assert(e.obj(u) == a.obj(u));
        }
    }
    crate::bytes::lemma_word_read_write(a.data(v), i, r);
    assert forall|j: int|
        0 <= j && (j + 4 <= i || i + 4 <= j) && j + 4 <= s.data(v).len() implies #[trigger] e.word(
        v,
        j,
    ) == s.word(v, j) by {
        crate::bytes::lemma_word_read_other(a.data(v), i, j, r);
    }
}

/// What a good object reaches after the store was good before it.
proof fn lemma_good_path(s: State, e: State, v: u32, r: u32, path: Seq<u32>, k: int)
    requires
        rewritten(s, e, v),
        s.obj(NULL) is None,
        s.good(r),
        forall|u: u32|
            s.good(u) && s.obj(u) is Some && u != v ==> #[trigger] e.refs_of(u) == s.refs_of(u),
        forall|x: u32| #[trigger] e.refs_of(v).contains(x) ==> x == r || s.refs_of(v).contains(x),
        e.leads(path),
        s.good(path[0]),
        0 <= k < path.len(),
    ensures
        s.good(path[k]),
        s.obj(path[k]) is Some,
    decreases k,
{
    assert(e.obj(path[k]) is Some);
    if k > 0 {
        lemma_good_path(s, e, v, r, path, k - 1);
        let w = path[k - 1];
        let x = path[k];
        assert(e.refs_of(path[k - 1]).contains(path[k - 1 + 1]));
        if w != v {
            assert(e.refs_of(w) == s.refs_of(w));
        } else {
            assert(e.refs_of(v).contains(x));
        }
        if s.refs_of(w).contains(x) {
            lemma_reaches_ref(s, w, x);
            lemma_good_closed(s, w, x);
        }
    }
}

/// A store into an ordinary object keeps good what is good.
proof fn lemma_store_keeps_good(s: State, e: State, v: u32, r: u32, x: u32)
    requires
        rewritten(s, e, v),
        s.obj(NULL) is None,
        e.described(),
        s.good(r),
        e.typed(v),
        forall|u: u32|
            s.good(u) && s.obj(u) is Some && u != v ==> #[trigger] e.refs_of(u) == s.refs_of(u),
        forall|y: u32| #[trigger] e.refs_of(v).contains(y) ==> y == r || s.refs_of(v).contains(y),
        s.good(x),
    ensures
        e.good(x),
{
    if x != NULL {
        assert(e.obj(x) is Some);
        assert forall|w: u32| #[trigger] e.reaches(x, w) implies e.local(w) by {
            let path = choose|path: Seq<u32>| #[trigger]
                e.leads(path) && path[0] == x && path.last() == w;
            lemma_good_path(s, e, v, r, path, path.len() - 1);
            lemma_reaches_self(s, w);
            lemma_good_is_local(s, w, w);
            assert forall|y: u32| #[trigger] e.refs_of(w).contains(y) && y != NULL implies e.obj(
                y,
            ) is Some by {
                if w != v {
                    assert(e.refs_of(w) == s.refs_of(w));
                }
                if s.refs_of(w).contains(y) {
                    assert(s.obj(y) is Some);
                }
            }
            if w != v {
                assert(e.data(w) == s.data(w));
                assert(e.tag(s.tag(w)) == s.tag(s.tag(w)));
                assert(e.tag(s.parameters(w)) == s.tag(s.parameters(w)));
            }
        }
        lemma_local_good(e, x);
    }
}

/// Storing a good value into an ordinary object that is live keeps a heap healthy,
/// where it changes the object's references to that value at most.
pub proof fn lemma_store_ordinary(s: State, v: u32, i: int, r: u32)
    requires
        s.healthy(),
        s.described(),
        s.live(v),
        ordinary(s, v),
        s.good(r),
        0 <= i,
        i + 4 <= s.data(v).len(),
        forall|x: u32| #[trigger]
            s.set_ref(v, i, r).refs_of(v).contains(x) ==> x == r || s.refs_of(v).contains(x),
    ensures
        ({
            let e = s.set_ref(v, i, r);
            &&& e.healthy()
            &&& e.described()
            &&& e.root_list() == s.root_list()
            &&& rewritten(s, e, v)
            &&& e == (State { objs: e.objs, remembered: e.remembered, ..s })
            &&& forall|u: u32| #[trigger] held(s, r, u) ==> e.good(u)
            &&& e.good(r)
            &&& forall|u: u32, w: u32|
                held(s, r, u) && #[trigger] e.reaches(u, w) ==> s.reaches(u, w) || (s.reaches(u, v)
                    && s.reaches(r, w))
            &&& forall|u: u32| #[trigger] e.live(u) ==> held(s, r, u)
            &&& forall|x: u32| #[trigger] s.good(x) ==> e.good(x)
        }),
{
    let e = s.set_ref(v, i, r);
    crate::slots::lemma_empty_places(s, 0, 0);
    lemma_live_good(s, v);
    lemma_set_ref(s, v, i, r);
    assert(e.described()) by {
        let dt = s.builtin(id::DATATYPE);
        let tn = s.builtin(id::TYPENAME);
        let sy = s.builtin(id::SYMBOL);
        let mo = s.builtin(id::MODULE);
        assert(v != dt && v != tn && v != sy && v != mo);
        assert(e.data(dt) == s.data(dt) && e.data(tn) == s.data(tn) && e.data(sy) == s.data(sy)
            && e.data(mo) == s.data(mo));
        crate::writes::lemma_holds_same(s, e, sy, 0);
        crate::writes::lemma_holds_same(s, e, mo, 3);
        crate::writes::lemma_holds_same(s, e, dt, 5);
        crate::writes::lemma_holds_same(s, e, tn, 3);
    }
    assert forall|u: u32| held(s, r, u) && u != v implies #[trigger] e.refs_of(u) == s.refs_of(
        u,
    ) by {
        lemma_held_object(s, r, u);
        lemma_quiet(s, e, v, u);
    }
    assert forall|u: u32| u != v && s.is_marked(u) implies #[trigger] e.refs_of(u) == s.refs_of(
        u,
    ) by {
        lemma_reaches_self(s, u);
        assert(s.live(u));
        assert(held(s, r, u));
    }
    assert forall|k: int| #![trigger e.refs_of(v)[k]] 0 <= k < e.refs_of(v).len() implies e.refs_of(
        v,
    )[k] == r || s.refs_of(v).contains(e.refs_of(v)[k]) by {
        assert(e.refs_of(v).contains(e.refs_of(v)[k]));
    }
    law_store_keeps_heap(s, v, i, r);
    assert(s.sound(v));
    assert(e.typed(v)) by {
        assert(e.tag(s.tag(v)) == s.tag(s.tag(v)));
    }
    lemma_store_healthy(s, e, v, r);
    assert forall|u: u32| s.good(u) && s.obj(u) is Some && u != v implies #[trigger] e.refs_of(u)
        == s.refs_of(u) by {
        lemma_quiet(s, e, v, u);
    }
    assert forall|x: u32| #[trigger] s.good(x) implies e.good(x) by {
        lemma_store_keeps_good(s, e, v, r, x);
    }
}

/// Storing a good value into one of the first words of an object whose type says that
/// they are its references.
pub proof fn lemma_store_plain(s: State, v: u32, n: int, k: int, r: u32)
    requires
        s.healthy(),
        s.described(),
        s.live(v),
        ordinary(s, v),
        s.good(r),
        s.holds_refs(s.tag(v), n),
        0 <= k < n,
        4 * n <= s.data(v).len(),
    ensures
        ({
            let e = s.set_ref(v, 4 * k, r);
            &&& e.healthy()
            &&& e.described()
            &&& e.root_list() == s.root_list()
            &&& rewritten(s, e, v)
            &&& e == (State { objs: e.objs, remembered: e.remembered, ..s })
            &&& forall|x: u32| #[trigger] s.good(x) ==> e.good(x)
        }),
{
    let e = s.set_ref(v, 4 * k, r);
    lemma_live_good(s, v);
    lemma_set_ref(s, v, 4 * k, r);
    let t = s.tag(v);
    lemma_reaches_self(s, v);
    lemma_good_is_local(s, v, v);
    assert(t != v) by {
        assert(s.tag(t) == s.builtin(id::DATATYPE));
    }
    assert(t != NULL);
    assert(e.data(t) == s.data(t));
    crate::writes::lemma_holds_same(s, e, t, n);
    lemma_plain_refs(s, v, n);
    lemma_plain_refs(e, v, n);
    assert forall|x: u32| #[trigger] e.refs_of(v).contains(x) implies x == r || s.refs_of(
        v,
    ).contains(x) by {
        let j = choose|j: int| 0 <= j < e.refs_of(v).len() && e.refs_of(v)[j] == x;
        if j == 0 {
            assert(s.refs_of(v)[0] == x);
        } else if j - 1 != k {
            assert(e.word(v, 4 * (j - 1)) == s.word(v, 4 * (j - 1)));
            assert(s.refs_of(v)[j] == x);
        } else {
            assert(e.word(v, 4 * k) == r);
        }
    }
    lemma_store_ordinary(s, v, 4 * k, r);
}

} // verus!
