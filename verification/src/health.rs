//! Heaps on which objects can be built: what roots and marks reach is sound, and
//! stays so while objects are allocated, filled and rooted.

use vstd::prelude::*;
use crate::gc::past_header;
use crate::id;
use crate::region::{align_up, NULL};
use crate::state::{ObjV, State};
use crate::survival::{
    law_collect_keeps_heap, law_new_object_keeps_heap, lemma_collect_frame, lemma_collect_marks,
    lemma_like_pages, lemma_local_refs, lemma_marked_kept, lemma_marked_live, lemma_mark,
    lemma_path_marked, lemma_reaches_self, lemma_same_refs, same_kinds,
};

verus! {

impl State {
    /// Whether the type of the object at `v` is a data type; whether the object, if it
    /// is a data type, has a vector of parameters or none, and a layout that was placed
    /// or none; and whether it, if it is a vector, has room for its elements alone.
    pub open spec fn typed(self, v: u32) -> bool {
        &&& self.tag(self.tag(v)) == self.builtin(id::DATATYPE)
        &&& self.tag(v) == self.builtin(id::SVEC) ==> self.data(v).len() == 4 + 4
            * self.svec_len(v)
        &&& self.tag(v) == self.builtin(id::DATATYPE) ==> {
            &&& self.layout(v) < self.region.top
            &&& self.parameters(v) == NULL || self.tag(self.parameters(v)) == self.builtin(
                id::SVEC,
            )
        }
    }

    /// Whether the object at `v` references objects only, is well typed, and references
    /// lead from it to what its references are found by.
    pub open spec fn sound(self, v: u32) -> bool {
        &&& self.typed(v)
        &&& forall|k: int|
            #![trigger self.refs_of(v)[k]]
            0 <= k < self.refs_of(v).len() && self.refs_of(v)[k] != NULL ==> self.obj(
                self.refs_of(v)[k],
            ) is Some
        &&& forall|x: u32| #[trigger] self.reads(v, x) && x != NULL ==> self.reaches(v, x)
        &&& self.tag(v) == self.builtin(id::DATATYPE) && self.parameters(v) != NULL
            ==> self.reaches(v, self.parameters(v))
    }

    /// Whether `v` is null, or an object from which sound objects alone are reached.
    pub open spec fn good(self, v: u32) -> bool {
        v == NULL || (self.obj(v) is Some && forall|u: u32| #[trigger]
            self.reaches(v, u) ==> self.sound(u))
    }

    /// Whether the collector's invariant holds and all roots and marked objects are
    /// good.
    pub open spec fn healthy(self) -> bool {
        &&& self.heap_ok()
        &&& forall|r: u32| #[trigger] self.root_list().contains(r) ==> self.good(r)
        &&& forall|v: u32| #[trigger] self.is_marked(v) ==> self.good(v)
    }

    /// Whether a root reaches `v`.
    pub open spec fn rooted(self, v: u32) -> bool {
        exists|r: u32| self.root_list().contains(r) && #[trigger] self.reaches(r, v)
    }
}

// --- reaching ---------------------------------------------------------------

pub proof fn lemma_reaches_ends(s: State, a: u32, b: u32)
    requires
        s.reaches(a, b),
    ensures
        s.obj(a) is Some,
        s.obj(b) is Some,
{
    let p = choose|path: Seq<u32>| #[trigger]
        s.leads(path) && path[0] == a && path.last() == b;
    assert(s.obj(p[0]) is Some);
    assert(s.obj(p[p.len() - 1]) is Some);
}

pub proof fn lemma_reaches_trans(s: State, a: u32, b: u32, c: u32)
    requires
        s.reaches(a, b),
        s.reaches(b, c),
    ensures
        s.reaches(a, c),
{
    let p = choose|path: Seq<u32>| #[trigger]
        s.leads(path) && path[0] == a && path.last() == b;
    let q = choose|path: Seq<u32>| #[trigger]
        s.leads(path) && path[0] == b && path.last() == c;
    let r = p + q.skip(1);
    assert forall|k: int| 0 <= k < r.len() implies s.obj(#[trigger] r[k]) is Some by {
        if k < p.len() {
            assert(r[k] == p[k]);
        } else {
            assert(r[k] == q[k - p.len() + 1]);
        }
    }
    assert forall|k: int| 0 <= k < r.len() - 1 implies s.refs_of(#[trigger] r[k]).contains(
        r[k + 1],
    ) by {
        if k + 1 < p.len() {
            assert(r[k] == p[k] && r[k + 1] == p[k + 1]);
            assert(s.refs_of(p[k]).contains(p[k + 1]));
        } else {
            let j = k - (p.len() - 1);
            assert(r[k + 1] == q[j + 1]);
            assert(r[k] == q[j]) by {
                if j == 0 {
                    assert(r[k] == p[k]);
                } else {
                    assert(r[k] == q[k - p.len() + 1]);
                }
            }
            assert(s.refs_of(q[j]).contains(q[j + 1]));
        }
    }
    assert(r[0] == p[0]);
    assert(r.last() == c) by {
        if q.len() == 1 {
            assert(r =~= p);
        } else {
            assert(r[r.len() - 1] == q[q.len() - 1]);
        }
    }
    assert(s.leads(r));
}

pub proof fn lemma_reaches_ref(s: State, a: u32, b: u32)
    requires
        s.obj(a) is Some,
        s.obj(b) is Some,
        s.refs_of(a).contains(b),
    ensures
        s.reaches(a, b),
{
    let p = seq![a, b];
    assert(s.leads(p)) by {
        assert(p[0] == a && p[1] == b);
        assert forall|k: int| 0 <= k < p.len() implies s.obj(#[trigger] p[k]) is Some by {}
        assert forall|k: int| 0 <= k < p.len() - 1 implies s.refs_of(#[trigger] p[k]).contains(
            p[k + 1],
        ) by {
            assert(p[k + 1] == b);
        }
    }
    assert(p.last() == b);
}

/// What a good object reaches is good.
pub proof fn lemma_good_closed(s: State, a: u32, b: u32)
    requires
        s.good(a),
        s.reaches(a, b),
        s.obj(NULL) is None,
    ensures
        s.good(b),
        s.sound(b),
{
    lemma_reaches_ends(s, a, b);
    assert forall|u: u32| #[trigger] s.reaches(b, u) implies s.sound(u) by {
        lemma_reaches_trans(s, a, b, u);
    }
}

/// Whether references are found in `e` as they are here: the core types that matter
/// for it are the same, and the layouts that were placed.
pub open spec fn like(s: State, e: State) -> bool {
    &&& same_kinds(s, e)
    &&& s.region.top <= e.region.top
    &&& forall|off: u32, k: int|
        off < s.region.top || off == NULL ==> #[trigger] e.layout_word(off, k) == s.layout_word(
            off,
            k,
        )
}

/// Whether everything that `v` reaches here is in `e` what it is here.
pub open spec fn reach_kept(s: State, e: State, v: u32) -> bool {
    forall|u: u32| #[trigger] s.reaches(v, u) ==> s.kept(e, u)
}

/// Where everything that a good object reaches is kept, it reaches the same objects,
/// through the same references, and is good.
pub proof fn lemma_kept_good(s: State, e: State, v: u32)
    requires
        s.good(v),
        v != NULL,
        like(s, e),
        s.obj(NULL) is None,
        e.obj(NULL) is None,
        reach_kept(s, e, v),
    ensures
        e.good(v),
        forall|u: u32| #[trigger] e.reaches(v, u) <==> s.reaches(v, u),
        forall|u: u32| s.reaches(v, u) ==> #[trigger] e.refs_of(u) == s.refs_of(u),
{
    assert forall|u: u32| s.reaches(v, u) implies #[trigger] e.refs_of(u) == s.refs_of(u) by {
        assert(s.sound(u));
        assert forall|x: u32| #[trigger] s.reads(u, x) implies s.tag(x) == e.tag(x) && s.data(x)
            == e.data(x) by {
            if x != NULL {
                assert(s.reaches(u, x));
                lemma_reaches_trans(s, v, u, x);
                assert(s.kept(e, x));
            }
        }
        lemma_placed(s, v, u);
        lemma_local_refs(s, e, u);
    }
    assert forall|u: u32| s.reaches(v, u) implies #[trigger] e.reaches(v, u) by {
        let p = choose|path: Seq<u32>| #[trigger]
            s.leads(path) && path[0] == v && path.last() == u;
        lemma_path_over(s, e, v, p);
    }
    assert forall|u: u32| #[trigger] e.reaches(v, u) implies s.reaches(v, u) by {
        let p = choose|path: Seq<u32>| #[trigger]
            e.leads(path) && path[0] == v && path.last() == u;
        lemma_path_back(s, e, v, p, p.len() - 1);
    }
    lemma_reaches_self(s, v);
    assert(s.kept(e, v));
    assert forall|u: u32| #[trigger] e.reaches(v, u) implies e.sound(u) by {
        assert(s.reaches(v, u));
        assert(s.sound(u));
        assert(e.refs_of(u) == s.refs_of(u));
        lemma_kept_typed(s, e, v, u);
        assert forall|k: int|
            #![trigger e.refs_of(u)[k]]
            0 <= k < e.refs_of(u).len() && e.refs_of(u)[k] != NULL implies e.obj(
            e.refs_of(u)[k],
        ) is Some by {
            let r = s.refs_of(u)[k];
            assert(s.obj(r) is Some);
            lemma_reaches_ends(s, v, u);
            lemma_reaches_ref(s, u, r);
            lemma_reaches_trans(s, v, u, r);
            assert(s.kept(e, r));
        }
        assert forall|x: u32| #[trigger] e.reads(u, x) && x != NULL implies e.reaches(u, x) by {
            lemma_same_reads(s, e, v, u, x);
            assert(s.reaches(u, x));
            let p = choose|path: Seq<u32>| #[trigger]
                s.leads(path) && path[0] == u && path.last() == x;
            lemma_path_over_from(s, e, v, u, p);
        }
        let x = e.parameters(u);
        if e.tag(u) == e.builtin(id::DATATYPE) && x != NULL {
            assert(s.kept(e, u));
            assert(s.reaches(u, x));
            let p = choose|path: Seq<u32>| #[trigger]
                s.leads(path) && path[0] == u && path.last() == x;
            lemma_path_over_from(s, e, v, u, p);
        }
    }
}

/// The layout of a good object's type was placed.
pub proof fn lemma_placed(s: State, v: u32, u: u32)
    requires
        s.good(v),
        s.reaches(v, u),
        s.obj(NULL) is None,
    ensures
        s.layout(s.tag(u)) < s.region.top || s.layout(s.tag(u)) == NULL,
{
    assert(s.sound(u));
    let t = s.tag(u);
    assert(s.reads(u, t));
    if t != NULL {
        lemma_reaches_trans(s, v, u, t);
        assert(s.sound(t));
    }
}

/// What is kept is typed alike.
proof fn lemma_kept_typed(s: State, e: State, v: u32, u: u32)
    requires
        s.good(v),
        v != NULL,
        like(s, e),
        s.obj(NULL) is None,
        e.obj(NULL) is None,
        reach_kept(s, e, v),
        s.reaches(v, u),
    ensures
        e.typed(u),
{
    assert(s.sound(u));
    let t = s.tag(u);
    assert(s.reads(u, t));
    assert(s.kept(e, u));
    if t != NULL {
        lemma_reaches_trans(s, v, u, t);
        assert(s.kept(e, t));
    }
    let p = s.parameters(u);
    if t == s.builtin(id::DATATYPE) && p != NULL {
        lemma_reaches_trans(s, v, u, p);
        assert(s.kept(e, p));
    }
}

/// What is read for an object is read alike where it is kept.
proof fn lemma_same_reads(s: State, e: State, v: u32, u: u32, x: u32)
    requires
        s.good(v),
        v != NULL,
        same_kinds(s, e),
        s.obj(NULL) is None,
        e.obj(NULL) is None,
        reach_kept(s, e, v),
        s.reaches(v, u),
    ensures
        e.reads(u, x) == s.reads(u, x),
{
    assert(s.kept(e, u));
    assert(s.sound(u));
    let t = s.tag(u);
    assert(s.reads(u, t));
    if t != NULL {
        lemma_reaches_trans(s, v, u, t);
        assert(s.kept(e, t));
    }
    assert(s.tag(t) == e.tag(t) && s.data(t) == e.data(t));
    if !s.is_svec(t) && s.is_memory_type(t) {
        let p = s.parameters(t);
        assert(s.reads(u, p));
        if p != NULL {
            lemma_reaches_trans(s, v, u, p);
            assert(s.kept(e, p));
        }
        let elem = s.svec_ref(p, 0);
        let n = crate::access::MAX_NESTING as nat;
        assert forall|y: u32| #[trigger] s.bits_read(elem, y, n) implies s.tag(y) == e.tag(y)
            && s.data(y) == e.data(y) by {
            assert(s.reads(u, y));
            if y != NULL {
                lemma_reaches_trans(s, v, u, y);
                assert(s.kept(e, y));
            }
        }
        lemma_same_bits_read(s, e, elem, x, n);
    }
}

pub proof fn lemma_same_bits_read(s: State, e: State, t: u32, x: u32, fuel: nat)
    requires
        same_kinds(s, e),
        forall|y: u32| #[trigger]
            s.bits_read(t, y, fuel) ==> s.tag(y) == e.tag(y) && s.data(y) == e.data(y),
    ensures
        e.bits_read(t, x, fuel) == s.bits_read(t, x, fuel),
    decreases fuel,
{
    assert(s.bits_read(t, t, fuel));
    if fuel > 0 && s.is_datatype(t) && !s.is_abstract(t) && !s.is_primitive(t) && s.is_tuple(t)
        && s.parameters(t) != NULL {
        let p = s.parameters(t);
        assert(s.bits_read(t, p, fuel));
        assert forall|i: int| 0 <= i < s.svec_len(p) implies e.bits_read(
            #[trigger] s.svec_ref(p, i),
            x,
            (fuel - 1) as nat,
        ) == s.bits_read(s.svec_ref(p, i), x, (fuel - 1) as nat) && e.svec_ref(p, i) == s.svec_ref(
            p,
            i,
        ) by {
            let c = s.svec_ref(p, i);
            assert forall|y: u32| #[trigger] s.bits_read(c, y, (fuel - 1) as nat) implies s.tag(y)
                == e.tag(y) && s.data(y) == e.data(y) by {
                assert(s.bits_read(t, y, fuel));
            }
            lemma_same_bits_read(s, e, c, x, (fuel - 1) as nat);
        }
        assert forall|i: int| 0 <= i < s.svec_len(p) implies #[trigger] e.svec_ref(p, i)
            == s.svec_ref(p, i) by {
            assert(e.svec_ref(p, i) == s.svec_ref(p, i));
        }
    }
}

proof fn lemma_path_over(s: State, e: State, v: u32, p: Seq<u32>)
    requires
        s.leads(p),
        p[0] == v,
        reach_kept(s, e, v),
        forall|u: u32| s.reaches(v, u) ==> #[trigger] e.refs_of(u) == s.refs_of(u),
    ensures
        e.leads(p),
        e.reaches(v, p.last()),
{
    assert forall|k: int| 0 <= k < p.len() implies e.obj(#[trigger] p[k]) is Some && s.reaches(
        v,
        p[k],
    ) by {
        lemma_prefix(s, p, k);
        assert(s.kept(e, p[k]));
    }
    assert forall|k: int| 0 <= k < p.len() - 1 implies e.refs_of(#[trigger] p[k]).contains(
        p[k + 1],
    ) by {
        assert(s.reaches(v, p[k]));
        assert(e.refs_of(p[k]) == s.refs_of(p[k]));
    }
    assert(e.leads(p));
}

proof fn lemma_path_over_from(s: State, e: State, v: u32, u: u32, p: Seq<u32>)
    requires
        s.leads(p),
        p[0] == u,
        s.reaches(v, u),
        reach_kept(s, e, v),
        forall|w: u32| s.reaches(v, w) ==> #[trigger] e.refs_of(w) == s.refs_of(w),
    ensures
        e.reaches(u, p.last()),
{
    assert forall|w: u32| #[trigger] s.reaches(u, w) implies s.kept(e, w) && e.refs_of(w)
        == s.refs_of(w) by {
        lemma_reaches_trans(s, v, u, w);
    }
    assert forall|w: u32| s.reaches(u, w) implies #[trigger] e.refs_of(w) == s.refs_of(w) by {}
    lemma_path_over(s, e, u, p);
}

proof fn lemma_prefix(s: State, p: Seq<u32>, k: int)
    requires
        s.leads(p),
        0 <= k < p.len(),
    ensures
        s.reaches(p[0], p[k]),
{
    let q = p.take(k + 1);
    assert(s.leads(q)) by {
        assert forall|j: int| 0 <= j < q.len() implies s.obj(#[trigger] q[j]) is Some by {
            assert(q[j] == p[j]);
        }
        assert forall|j: int| 0 <= j < q.len() - 1 implies s.refs_of(#[trigger] q[j]).contains(
            q[j + 1],
        ) by {
            assert(q[j] == p[j] && q[j + 1] == p[j + 1]);
            assert(s.refs_of(p[j]).contains(p[j + 1]));
        }
    }
    assert(q[0] == p[0] && q.last() == p[k]);
}

proof fn lemma_path_back(s: State, e: State, v: u32, p: Seq<u32>, k: int)
    requires
        s.good(v),
        v != NULL,
        e.leads(p),
        p[0] == v,
        0 <= k < p.len(),
        e.obj(NULL) is None,
        forall|u: u32| s.reaches(v, u) ==> #[trigger] e.refs_of(u) == s.refs_of(u),
    ensures
        s.reaches(v, p[k]),
    decreases k,
{
    if k == 0 {
        lemma_reaches_self(s, v);
    } else {
        lemma_path_back(s, e, v, p, k - 1);
        let u = p[k - 1];
        let r = p[k];
        assert(e.refs_of(p[k - 1]).contains(p[k - 1 + 1]));
        assert(e.obj(p[k]) is Some);
        assert(s.sound(u));
        let j = choose|j: int| 0 <= j < s.refs_of(u).len() && s.refs_of(u)[j] == r;
        assert(s.obj(s.refs_of(u)[j]) is Some);
        lemma_reaches_ends(s, v, u);
        lemma_reaches_ref(s, u, r);
        lemma_reaches_trans(s, v, u, r);
    }
}

// --- healthy heaps ----------------------------------------------------------

/// What is live in a healthy heap is good.
pub proof fn lemma_live_good(s: State, v: u32)
    requires
        s.healthy(),
        s.live(v),
    ensures
        s.good(v),
        s.sound(v),
        s.obj(v) is Some,
        s.obj(NULL) is None,
{
    crate::slots::lemma_empty_places(s, 0, 0);
    let r = choose|r: u32|
        (s.root_list().contains(r) || s.is_marked(r)) && #[trigger] s.reaches(r, v);
    lemma_good_closed(s, r, v);
    lemma_reaches_ends(s, r, v);
}

proof fn lemma_rooted_live(s: State, v: u32)
    requires
        s.rooted(v),
    ensures
        s.live(v),
{
    let r = choose|r: u32| s.root_list().contains(r) && #[trigger] s.reaches(r, v);
    assert(s.reaches(r, v));
}

/// Whether what the roots reach here is in `e` what it is here, and is reached there.
pub open spec fn roots_kept(s: State, e: State) -> bool {
    forall|u: u32| #[trigger] s.rooted(u) ==> s.kept(e, u) && e.rooted(u)
}

/// The roots of two states that differ in blocks and the collector's state alone.
proof fn lemma_same_roots(s: State, e: State)
    requires
        e.roots == s.roots,
        e.builtins == s.builtins,
        e.syms == s.syms,
        e.methods == s.methods,
        e.functions == s.functions,
        e.structs == s.structs,
        e.exc == s.exc,
        e.main == s.main,
    ensures
        e.root_list() == s.root_list(),
{
    reveal(State::root_list);
}

/// Where the roots are the same and what they reach is kept, it is reached there.
proof fn lemma_roots_kept(s: State, e: State)
    requires
        s.healthy(),
        e.obj(NULL) is None,
        e.root_list() == s.root_list(),
        like(s, e),
        forall|u: u32| #[trigger] s.rooted(u) ==> s.kept(e, u),
    ensures
        roots_kept(s, e),
        forall|r: u32| #[trigger] e.root_list().contains(r) ==> e.good(r),
        forall|u: u32| #[trigger] e.rooted(u) ==> s.rooted(u),
{
    crate::slots::lemma_empty_places(s, 0, 0);
    assert forall|r: u32| #[trigger] s.root_list().contains(r) && r != NULL implies e.good(r)
        && forall|u: u32| #[trigger] e.reaches(r, u) <==> s.reaches(r, u) by {
        assert(reach_kept(s, e, r)) by {
            assert forall|u: u32| #[trigger] s.reaches(r, u) implies s.kept(e, u) by {
                assert(s.rooted(u));
            }
        }
        lemma_kept_good(s, e, r);
    }
    assert forall|u: u32| #[trigger] s.rooted(u) implies s.kept(e, u) && e.rooted(u) by {
        let r = choose|r: u32| s.root_list().contains(r) && #[trigger] s.reaches(r, u);
        lemma_reaches_ends(s, r, u);
        assert(e.reaches(r, u));
    }
    assert forall|u: u32| #[trigger] e.rooted(u) implies s.rooted(u) by {
        let r = choose|r: u32| e.root_list().contains(r) && #[trigger] e.reaches(r, u);
        lemma_reaches_ends(e, r, u);
        assert(s.reaches(r, u));
    }
}

/// Whether what is live in `e` is live in `s`, and reaches the same objects.
pub open spec fn steady(s: State, e: State) -> bool {
    forall|u: u32| #[trigger]
        e.live(u) ==> s.live(u) && forall|w: u32| #[trigger] e.reaches(u, w) <==> s.reaches(u, w)
}

/// What is live stays as it is where it is kept and nothing else gets marked.
proof fn lemma_steady(s: State, e: State)
    requires
        s.healthy(),
        e.obj(NULL) is None,
        e.root_list() == s.root_list(),
        like(s, e),
        forall|u: u32| s.live(u) ==> #[trigger] s.kept(e, u),
        forall|v: u32| #[trigger] e.is_marked(v) ==> s.live(v),
    ensures
        steady(s, e),
{
    crate::slots::lemma_empty_places(s, 0, 0);
    assert forall|u: u32| s.live(u) implies forall|w: u32| #[trigger]
        e.reaches(u, w) <==> s.reaches(u, w) by {
        lemma_live_good(s, u);
        assert(reach_kept(s, e, u)) by {
            assert forall|w: u32| #[trigger] s.reaches(u, w) implies s.kept(e, w) by {
                lemma_live_closed(s, u, w);
            }
        }
        lemma_kept_good(s, e, u);
    }
    assert forall|u: u32| #[trigger] e.live(u) implies s.live(u) by {
        let r = choose|r: u32|
            (e.root_list().contains(r) || e.is_marked(r)) && #[trigger] e.reaches(r, u);
        lemma_reaches_ends(e, r, u);
        if s.root_list().contains(r) {
            assert(s.good(r));
            lemma_reaches_self(s, r);
            assert(s.reaches(r, r));
            assert(s.live(r));
        }
        assert(s.live(r));
        assert(s.reaches(r, u));
        lemma_live_closed(s, r, u);
    }
}

/// What a live object reaches is live.
pub proof fn lemma_live_closed(s: State, u: u32, w: u32)
    requires
        s.live(u),
        s.reaches(u, w),
    ensures
        s.live(w),
{
    let r = choose|r: u32|
        (s.root_list().contains(r) || s.is_marked(r)) && #[trigger] s.reaches(r, u);
    lemma_reaches_trans(s, r, u, w);
}

pub proof fn lemma_steady_trans(s: State, a: State, b: State)
    requires
        steady(s, a),
        steady(a, b),
    ensures
        steady(s, b),
{
    assert forall|u: u32| #[trigger] b.live(u) implies s.live(u) && forall|w: u32| #[trigger]
        b.reaches(u, w) <==> s.reaches(u, w) by {
        assert(a.live(u));
        assert forall|w: u32| #[trigger] b.reaches(u, w) <==> s.reaches(u, w) by {
            assert(b.reaches(u, w) <==> a.reaches(u, w));
        }
    }
}

/// A collection keeps a healthy heap healthy, and what the roots reach.
pub proof fn lemma_collect_healthy(s: State, full: bool)
    requires
        s.healthy(),
    ensures
        s.collect(full).healthy(),
        roots_kept(s, s.collect(full)),
        steady(s, s.collect(full)),
        s.collect(full).region == s.region,
        s.collect(full).root_list() == s.root_list(),
{
    let e = s.collect(full);
    let m = s.mark();
    lemma_collect_frame(s, full);
    lemma_same_roots(s, e);
    assert forall|v: u32, x: u32|
        #![trigger s.reads(v, x)]
        s.live(v) && s.reads(v, x) && x != NULL implies s.reaches(v, x) by {
        lemma_live_good(s, v);
    }
    law_collect_keeps_heap(s, full);
    crate::slots::lemma_empty_places(s, 0, 0);
    crate::slots::lemma_empty_places(e, 0, 0);
    lemma_mark(s);
    assert forall|u: u32| s.live(u) implies #[trigger] s.kept(e, u) by {
        let r = choose|r: u32|
            (s.root_list().contains(r) || s.is_marked(r)) && #[trigger] s.reaches(r, u);
        let p = choose|path: Seq<u32>| #[trigger]
            s.leads(path) && path[0] == r && path.last() == u;
        assert(s.obj(p[0]) is Some);
        assert(m.is_marked(r)) by {
            if s.root_list().contains(r) {
                let k = choose|k: int| 0 <= k < s.root_list().len() && s.root_list()[k] == r;
                assert(s.obj(s.root_list()[k]) is Some);
            }
        }
        lemma_path_marked(s, m, p, p.len() - 1);
        lemma_marked_kept(s, full, u);
    }
    assert forall|u: u32| #[trigger] s.rooted(u) implies s.kept(e, u) by {
        lemma_rooted_live(s, u);
    }
    lemma_roots_kept(s, e);
    assert forall|v: u32| #[trigger] e.is_marked(v) implies e.good(v) by {
        lemma_collect_marks(s, full, v);
        lemma_marked_live(s, v);
        lemma_live_good(s, v);
        let r = choose|r: u32|
            (s.root_list().contains(r) || s.is_marked(r)) && #[trigger] s.reaches(r, v);
        assert(reach_kept(s, e, v)) by {
            assert forall|u: u32| #[trigger] s.reaches(v, u) implies s.kept(e, u) by {
                lemma_reaches_trans(s, r, v, u);
                assert(s.live(u));
            }
        }
        assert(v != NULL);
        lemma_kept_good(s, e, v);
    }
    assert forall|v: u32| #[trigger] e.is_marked(v) implies s.live(v) by {
        lemma_collect_marks(s, full, v);
        lemma_marked_live(s, v);
    }
    lemma_steady(s, e);
}

/// Health rests on the blocks, the pages and the roots.
pub proof fn lemma_same_heap(s: State, e: State)
    requires
        s.heap_ok(),
        e.objs == s.objs,
        e.builtins == s.builtins,
        e.layouts == s.layouts,
        e.remembered == s.remembered,
        e.slots_ok(),
        e.pages_tell(),
    ensures
        e.heap_ok(),
        s.same_objects(e),
        e.same_objects(s),
{
    assert(forall|v: u32| #[trigger] e.obj(v) == s.obj(v));
    assert(s.same_objects(e));
    assert(e.same_objects(s));
    assert forall|k: int| 0 <= k < e.remembered.len() implies e.is_marked(
        #[trigger] e.remembered[k],
    ) by {
        assert(s.is_marked(s.remembered[k]));
    }
    assert forall|v: u32| #[trigger] e.is_marked(v) && !e.is_old(v) implies e.remembered.contains(
        v,
    ) by {
        assert(s.is_marked(v));
    }
    assert forall|v: u32| #[trigger] e.is_marked(v) && !e.remembered.contains(v) implies e.refs_marked(
        v,
        e,
    ) by {
        assert(s.is_marked(v));
        lemma_same_refs(s, e, v);
        assert(s.refs_marked(v, s));
        assert forall|i: int|
            0 <= i < e.refs_of(v).len() && e.obj(#[trigger] e.refs_of(v)[i]) is Some implies e.is_marked(
            e.refs_of(v)[i],
        ) by {
            assert(s.refs_of(v)[i] == e.refs_of(v)[i]);
            assert(s.obj(s.refs_of(v)[i]) is Some);
            assert(s.is_marked(s.refs_of(v)[i]));
        }
    }
}

/// Same objects are reached and good alike.
pub proof fn lemma_same_good(s: State, e: State, v: u32)
    requires
        e.objs == s.objs,
        like(s, e),
        s.obj(NULL) is None,
        s.good(v),
    ensures
        e.good(v),
        forall|u: u32| #[trigger] e.reaches(v, u) <==> s.reaches(v, u),
{
    assert(forall|u: u32| #[trigger] e.obj(u) == s.obj(u));
    if v != NULL {
        assert(reach_kept(s, e, v)) by {
            assert forall|u: u32| #[trigger] s.reaches(v, u) implies s.kept(e, u) by {
                lemma_reaches_ends(s, v, u);
            }
        }
        lemma_kept_good(s, e, v);
    } else {
        assert forall|u: u32| #[trigger] e.reaches(v, u) implies s.reaches(v, u) by {
            lemma_reaches_ends(e, v, u);
        }
        assert forall|u: u32| s.reaches(v, u) implies #[trigger] e.reaches(v, u) by {
            lemma_reaches_ends(s, v, u);
        }
    }
}

/// Taking a slot keeps a heap healthy.
proof fn lemma_chunk_healthy(s: State, total: int)
    requires
        s.healthy(),
        0 < total,
    ensures
        s.alloc_chunk(total).0.healthy(),
        roots_kept(s, s.alloc_chunk(total).0),
        steady(s, s.alloc_chunk(total).0),
        s.region.top <= s.alloc_chunk(total).0.region.top,
        s.alloc_chunk(total).0.root_list() == s.root_list(),
        s.alloc_chunk(total).0.objs == s.objs,
{
    let e = s.alloc_chunk(total).0;
    crate::slots::law_alloc_chunk(s, total);
    crate::object::lemma_alloc_chunk_keeps(s, total);
    lemma_same_heap(s, e);
    lemma_same_roots(s, e);
    crate::slots::lemma_empty_places(s, 0, 0);
    crate::slots::lemma_empty_places(e, 0, 0);
    assert(forall|v: u32| #[trigger] e.obj(v) == s.obj(v));
    assert forall|u: u32| #[trigger] s.rooted(u) implies s.kept(e, u) by {
        lemma_rooted_live(s, u);
        lemma_live_good(s, u);
    }
    lemma_roots_kept(s, e);
    assert forall|v: u32| #[trigger] e.is_marked(v) implies e.good(v) by {
        assert(s.is_marked(v));
        lemma_same_good(s, e, v);
    }
    lemma_marks_live(s, e);
    assert forall|u: u32| s.live(u) implies #[trigger] s.kept(e, u) by {
        lemma_live_good(s, u);
    }
    lemma_steady(s, e);
}

/// Marked objects are live.
proof fn lemma_marks_live(s: State, e: State)
    requires
        forall|v: u32| #[trigger] e.is_marked(v) ==> s.is_marked(v),
    ensures
        forall|v: u32| #[trigger] e.is_marked(v) ==> s.live(v),
{
    assert forall|v: u32| #[trigger] e.is_marked(v) implies s.live(v) by {
        assert(s.is_marked(v));
        lemma_reaches_self(s, v);
        assert(s.reaches(v, v));
    }
}

/// Whether the object at `v` is there and nothing live reaches it.
pub open spec fn loose(s: State, v: u32) -> bool {
    s.obj(v) is Some && !s.is_marked(v) && !s.live(v)
}

/// Filling a slot that was just taken keeps a heap healthy; the new object is loose.
proof fn lemma_place_healthy(s: State, total: int, o: ObjV)
    requires
        s.healthy(),
        0 < total,
        s.alloc_chunk(total).1 != NULL,
        s.has_slot(past_header(s.alloc_chunk(total).1)),
        !o.marked,
    ensures
        ({
            let (a, h) = s.alloc_chunk(total);
            let e = a.put(past_header(h), Some(o));
            &&& e.healthy()
            &&& roots_kept(s, e)
            &&& steady(s, e)
            &&& e.root_list() == s.root_list()
            &&& loose(e, past_header(h))
            &&& e.obj(past_header(h)) == Some(o)
            &&& forall|x: u32| #[trigger] s.good(x) ==> e.good(x) && !e.reaches(x, past_header(h))
        }),
{
    let (a, h) = s.alloc_chunk(total);
    let v = past_header(h);
    let e = a.put(v, Some(o));
    crate::slots::law_alloc_chunk(s, total);
    crate::object::lemma_alloc_chunk_keeps(s, total);
    crate::slots::lemma_empty_places(s, 0, 0);
    assert(s.types_present()) by {
        assert forall|u: u32, x: u32|
            #![trigger s.reads(u, x)]
            s.is_marked(u) && s.reads(u, x) && x != NULL implies s.obj(x) is Some by {
            lemma_reaches_self(s, u);
            assert(s.good(u));
            assert(s.sound(u));
            lemma_reaches_ends(s, u, x);
        }
        assert forall|u: u32, k: int|
            #![trigger s.refs_of(u)[k]]
            s.is_marked(u) && 0 <= k < s.refs_of(u).len() && s.refs_of(u)[k] != NULL implies s.obj(
            s.refs_of(u)[k],
        ) is Some by {
            lemma_reaches_self(s, u);
            assert(s.good(u));
            assert(s.sound(u));
        }
    }
    law_new_object_keeps_heap(s, total, o);
    lemma_same_roots(s, e);
    crate::slots::lemma_empty_places(e, 0, 0);
    assert(a.has_slot(v));
    assert(e.obj(v) == Some(o));
    assert(v != NULL);
    assert forall|u: u32| u != v implies #[trigger] e.obj(u) == s.obj(u) by {
        assert(a.objs == s.objs);
        assert(a.obj(u) == s.obj(u));
        if a.has_slot(u) {
            assert(u / 8 != v / 8);
        }
    }
    assert forall|x: u32| #[trigger] s.good(x) implies e.good(x) && !e.reaches(x, v) by {
        if x != NULL {
            assert(reach_kept(s, e, x)) by {
                assert forall|u: u32| #[trigger] s.reaches(x, u) implies s.kept(e, u) by {
                    lemma_reaches_ends(s, x, u);
                }
            }
            lemma_kept_good(s, e, x);
            if e.reaches(x, v) {
                assert(s.reaches(x, v));
                lemma_reaches_ends(s, x, v);
            }
        } else if e.reaches(x, v) {
            lemma_reaches_ends(e, x, v);
        }
    }
    assert forall|u: u32| #[trigger] s.rooted(u) implies s.kept(e, u) by {
        lemma_rooted_live(s, u);
        lemma_live_good(s, u);
    }
    lemma_roots_kept(s, e);
    assert forall|u: u32| #[trigger] e.is_marked(u) implies e.good(u) && s.is_marked(u) by {
        assert(u != v);
        assert(e.obj(u) == s.obj(u));
        assert(s.is_marked(u));
        assert(s.good(u));
    }
    if e.live(v) {
        let r = choose|r: u32|
            (e.root_list().contains(r) || e.is_marked(r)) && #[trigger] e.reaches(r, v);
        assert(s.good(r)) by {
            if !e.root_list().contains(r) {
                assert(s.is_marked(r));
            }
        }
        assert(false);
    }
    lemma_marks_live(s, e);
    assert forall|u: u32| s.live(u) implies #[trigger] s.kept(e, u) by {
        lemma_live_good(s, u);
        assert(e.obj(u) == s.obj(u));
    }
    lemma_steady(s, e);
}

/// An allocation keeps a heap healthy and what the roots reach; the new object is
/// loose.
pub proof fn law_alloc_keeps_rooted(s: State, t: u32, size: int)
    requires
        s.healthy(),
        0 <= size,
    ensures
        ({
            let (e, v) = s.alloc_object(t, size);
            &&& e.healthy()
            &&& roots_kept(s, e)
            &&& steady(s, e)
            &&& s.region.top <= e.region.top
            &&& e.root_list() == s.root_list()
            &&& v != NULL ==> loose(e, v) && forall|r: u32| #[trigger]
                e.root_list().contains(r) ==> !e.reaches(r, v)
        }),
{
    reveal(State::alloc_object);
    reveal(State::obtain_chunk);
    reveal(State::maybe_collect);
    let total = 8 + align_up(size);
    let a = s.maybe_collect();
    if a != s {
        lemma_collect_healthy(s, s.stats.next_full);
    } else {
        lemma_kept_refl(s);
    }
    assert(steady(s, a) && s.region == a.region);
    let (b, h1) = a.alloc_chunk(total);
    lemma_chunk_healthy(a, total);
    lemma_kept_trans(s, a, b);
    lemma_steady_trans(s, a, b);
    let (c, h) = a.obtain_chunk(total);
    // The state in which the slot was taken.
    let from = if h1 != NULL || b.builtins is None {
        a
    } else {
        lemma_collect_healthy(b, false);
        let b1 = b.collect(false);
        lemma_kept_trans(s, b, b1);
        lemma_steady_trans(s, b, b1);
        let (b2, h2) = b1.alloc_chunk(total);
        lemma_chunk_healthy(b1, total);
        lemma_kept_trans(s, b1, b2);
        lemma_steady_trans(s, b1, b2);
        if h2 != NULL {
            b1
        } else {
            lemma_collect_healthy(b2, true);
            lemma_kept_trans(s, b2, b2.collect(true));
            lemma_steady_trans(s, b2, b2.collect(true));
            b2.collect(true)
        }
    };
    assert((c, h) == from.alloc_chunk(total));
    lemma_chunk_healthy(from, total);
    lemma_kept_trans(s, from, c);
    lemma_steady_trans(s, from, c);
    let v = past_header(h);
    let (e, r) = s.alloc_object(t, size);
    if !(h == NULL || !c.has_slot(v) || v == NULL) {
        assert(from.has_slot(v));
        let o = ObjV {
            tag: (t - t % 4) as u32,
            marked: false,
            old: false,
            data: crate::bytes::zeros(size as nat),
        };
        lemma_place_healthy(from, total, o);
        lemma_kept_trans(s, from, e);
        lemma_steady_trans(s, from, e);
        assert forall|x: u32| #[trigger] e.root_list().contains(x) implies !e.reaches(x, v) by {
            assert(from.good(x));
        }
    }
}

proof fn lemma_kept_refl(s: State)
    requires
        s.healthy(),
    ensures
        roots_kept(s, s),
{
    assert forall|u: u32| #[trigger] s.rooted(u) implies s.kept(s, u) && s.rooted(u) by {
        lemma_rooted_live(s, u);
        lemma_live_good(s, u);
    }
}

proof fn lemma_kept_trans(s: State, a: State, b: State)
    requires
        roots_kept(s, a),
        roots_kept(a, b),
    ensures
        roots_kept(s, b),
{
    assert forall|u: u32| #[trigger] s.rooted(u) implies s.kept(b, u) && b.rooted(u) by {
        assert(a.rooted(u));
        assert(s.kept(a, u) && a.kept(b, u));
    }
}

// --- filling and rooting ----------------------------------------------------

/// Whether `e` differs from `s` in the tag and payload of the object at `v` alone.
pub open spec fn only_at(s: State, e: State, v: u32) -> bool {
    &&& e == (State { objs: e.objs, ..s })
    &&& e.objs.len() == s.objs.len()
    &&& s.obj(v) is Some
    &&& e.obj(v) is Some
    &&& e.is_marked(v) == s.is_marked(v)
    &&& e.is_old(v) == s.is_old(v)
    &&& forall|u: u32| u != v ==> #[trigger] e.obj(u) == s.obj(u)
}

pub proof fn lemma_only_at_trans(s: State, a: State, b: State, v: u32)
    requires
        only_at(s, a, v),
        only_at(a, b, v),
    ensures
        only_at(s, b, v),
{
    assert forall|u: u32| u != v implies #[trigger] b.obj(u) == s.obj(u) by {
        assert(a.obj(u) == s.obj(u));
    }
}

pub proof fn lemma_word_only_at(s: State, v: u32, i: int, w: u32)
    requires
        s.obj(v) is Some,
    ensures
        only_at(s, s.with_word(v, i, w), v),
        s.with_word(v, i, w).tag(v) == s.tag(v),
        s.with_word(v, i, w).data(v).len() == s.data(v).len(),
{
    let e = s.with_word(v, i, w);
    assert forall|u: u32| u != v implies #[trigger] e.obj(u) == s.obj(u) by {
        if s.has_slot(u) && s.has_slot(v) {
            assert(u / 8 != v / 8);
        }
    }
    let d = s.data(v);
    if crate::bytes::word_fits(d, i) {
        crate::bytes::lemma_word_read_write(d, i, w);
    }
}

/// Filling a loose object keeps a heap healthy, and good what does not reach it.
pub proof fn lemma_fill_healthy(s: State, e: State, v: u32)
    requires
        s.healthy(),
        loose(s, v),
        only_at(s, e, v),
    ensures
        e.healthy(),
        loose(e, v),
        roots_kept(s, e),
        steady(s, e),
        e.root_list() == s.root_list(),
        forall|x: u32| #[trigger] s.good(x) && !s.reaches(x, v) ==> e.good(x) && !e.reaches(x, v),
{
    crate::slots::lemma_empty_places(s, 0, 0);
    lemma_same_roots(s, e);
    assert(forall|u: u32| #[trigger] e.obj(u) is Some <==> s.obj(u) is Some);
    lemma_like_pages(s, e);
    crate::slots::lemma_empty_places(e, 0, 0);
    assert forall|u: u32| #[trigger] e.is_marked(u) == s.is_marked(u) && e.is_old(u) == s.is_old(u) by {
        if u != v {
            assert(e.obj(u) == s.obj(u));
        }
    }
    crate::slots::lemma_same_tell(s, e);
    assert forall|x: u32| #[trigger] s.good(x) && !s.reaches(x, v) implies e.good(x) && !e.reaches(
        x,
        v,
    ) by {
        if x != NULL {
            assert(reach_kept(s, e, x)) by {
                assert forall|u: u32| #[trigger] s.reaches(x, u) implies s.kept(e, u) by {
                    lemma_reaches_ends(s, x, u);
                    assert(u != v);
                    assert(e.obj(u) == s.obj(u));
                }
            }
            lemma_kept_good(s, e, x);
        } else if e.reaches(x, v) {
            lemma_reaches_ends(e, x, v);
        }
    }
    assert forall|u: u32| #[trigger] s.is_marked(u) implies !s.reaches(u, v) by {
        if s.reaches(u, v) {
            assert(s.live(v));
        }
    }
    assert forall|u: u32| #[trigger] s.rooted(u) implies s.kept(e, u) by {
        lemma_rooted_live(s, u);
        lemma_live_good(s, u);
        assert(u != v);
        assert(e.obj(u) == s.obj(u));
    }
    lemma_roots_kept(s, e);
    assert forall|u: u32| #[trigger] e.is_marked(u) implies e.good(u) by {
        assert(s.is_marked(u));
        assert(s.good(u));
    }
    if e.live(v) {
        let r = choose|r: u32|
            (e.root_list().contains(r) || e.is_marked(r)) && #[trigger] e.reaches(r, v);
        if e.root_list().contains(r) {
            assert(s.good(r));
            if s.reaches(r, v) {
                assert(s.live(v));
            }
        } else {
            assert(s.is_marked(r));
            assert(s.good(r));
        }
        assert(false);
    }
    assert forall|u: u32| #[trigger] e.is_marked(u) && !e.remembered.contains(u) implies e.refs_marked(
        u,
        e,
    ) by {
        assert(s.is_marked(u));
        assert(s.good(u));
        assert(!s.reaches(u, v));
        lemma_reaches_self(s, u);
        assert(reach_kept(s, e, u)) by {
            assert forall|w: u32| #[trigger] s.reaches(u, w) implies s.kept(e, w) by {
                lemma_reaches_ends(s, u, w);
                assert(w != v);
                assert(e.obj(w) == s.obj(w));
            }
        }
        lemma_kept_good(s, e, u);
        assert(e.refs_of(u) == s.refs_of(u));
        assert(s.refs_marked(u, s));
        assert forall|i: int|
            0 <= i < e.refs_of(u).len() && e.obj(#[trigger] e.refs_of(u)[i]) is Some implies e.is_marked(
            e.refs_of(u)[i],
        ) by {
            let w = s.refs_of(u)[i];
            assert(s.obj(w) is Some);
            assert(s.is_marked(w));
            assert(e.is_marked(w) == s.is_marked(w));
        }
    }
    assert forall|k: int| 0 <= k < e.remembered.len() implies e.is_marked(
        #[trigger] e.remembered[k],
    ) by {
        assert(s.is_marked(s.remembered[k]));
        assert(e.is_marked(s.remembered[k]) == s.is_marked(s.remembered[k]));
    }
    assert forall|u: u32| #[trigger] e.is_marked(u) && !e.is_old(u) implies e.remembered.contains(
        u,
    ) by {
        assert(s.is_marked(u) && !s.is_old(u));
    }
    lemma_marks_live(s, e);
    assert forall|u: u32| s.live(u) implies #[trigger] s.kept(e, u) by {
        lemma_live_good(s, u);
        assert(u != v);
        assert(e.obj(u) == s.obj(u));
    }
    lemma_steady(s, e);
}

/// Whether `e` has the same blocks as `s` and differs in the shadow stack alone.
pub open spec fn only_roots(s: State, e: State) -> bool {
    e == (State { roots: e.roots, ..s })
}

/// Where the shadow stack holds good values only, a heap stays healthy.
pub proof fn lemma_roots_healthy(s: State, e: State)
    requires
        s.healthy(),
        only_roots(s, e),
        forall|i: int| 0 <= i < e.roots.len() ==> s.good(#[trigger] e.roots[i]),
    ensures
        e.healthy(),
        forall|x: u32| #[trigger] s.good(x) ==> e.good(x),
        forall|x: u32, u: u32| s.good(x) ==> (#[trigger] e.reaches(x, u) <==> s.reaches(x, u)),
{
    crate::slots::lemma_empty_places(s, 0, 0);
    assert(forall|v: u32| #[trigger] e.obj(v) == s.obj(v));
    assert(e.slots_ok()) by {
        crate::slots::lemma_same_pages(s, e);
    }
    crate::slots::lemma_same_tell(s, e);
    lemma_same_heap(s, e);
    assert forall|x: u32| #[trigger] s.good(x) implies e.good(x) by {
        lemma_same_good(s, e, x);
    }
    assert forall|x: u32, u: u32| s.good(x) implies (#[trigger] e.reaches(x, u) <==> s.reaches(
        x,
        u,
    )) by {
        lemma_same_good(s, e, x);
    }
    assert forall|r: u32| #[trigger] e.root_list().contains(r) implies e.good(r) by {
        lemma_root_kinds(s, e, r);
        if e.roots.contains(r) {
            let i = choose|i: int| 0 <= i < e.roots.len() && e.roots[i] == r;
            assert(s.good(e.roots[i]));
        }
    }
    assert forall|v: u32| #[trigger] e.is_marked(v) implies e.good(v) by {
        assert(s.is_marked(v));
        assert(s.good(v));
    }
}

/// A root is on the shadow stack, or a root whatever the shadow stack is.
pub proof fn lemma_root_kinds(s: State, e: State, r: u32)
    requires
        only_roots(s, e),
        e.root_list().contains(r),
    ensures
        e.roots.contains(r) || s.root_list().contains(r),
{
    reveal(State::root_list);
    let i = choose|i: int| 0 <= i < e.root_list().len() && e.root_list()[i] == r;
    if i < e.roots.len() {
        assert(e.roots[i] == r);
    } else {
        assert(s.root_list()[i - e.roots.len() + s.roots.len()] == r);
    }
}

/// What is on the shadow stack is a root, and so is what is a root whatever the
/// shadow stack is.
pub proof fn lemma_is_root(s: State, i: int)
    requires
        0 <= i < s.roots.len(),
    ensures
        s.root_list().contains(s.roots[i]),
{
    reveal(State::root_list);
    assert(s.root_list()[i] == s.roots[i]);
}

/// The core types and the shared names are roots.
pub proof fn lemma_builtin_is_root(s: State, i: u32)
    ensures
        s.builtin(i) == NULL || s.root_list().contains(s.builtin(i)),
        s.builtins is Some ==> s.root_list().contains(s.tuple_name()) && s.root_list().contains(
            s.shared_name(0),
        ) && s.root_list().contains(s.shared_name(1)) && s.root_list().contains(s.shared_name(2))
            && s.root_list().contains(s.shared_name(3)) && s.root_list().contains(s.shared_name(4)),
{
    reveal(State::root_list);
    match s.builtins {
        Some(b) => {
            let n = s.roots.len() as int;
            let m = b.types.len() as int;
            if i < m {
                assert(s.root_list()[n + i as int] == b.types[i as int]);
            }
            assert(s.root_list()[n + m + 2] == b.tuple_typename);
            assert(s.root_list()[n + m + 3] == b.box_typename);
            assert(s.root_list()[n + m + 4] == b.pair_typename);
            assert(s.root_list()[n + m + 5] == b.type_typename);
            assert(s.root_list()[n + m + 6] == b.memory_typename);
            assert(s.root_list()[n + m + 7] == b.array_typename);
        },
        None => {},
    }
}

/// Words written to a block in turn are read back.
pub proof fn lemma_write_words(s: State, v: u32, base: int, ws: Seq<u32>, k: int)
    requires
        s.obj(v) is Some,
        0 <= base,
        0 <= k <= ws.len(),
        base + 4 * ws.len() <= s.data(v).len(),
    ensures
        ({
            let e = s.write_words(v, base, ws, k);
            &&& only_at(s, e, v)
            &&& e.tag(v) == s.tag(v)
            &&& e.data(v).len() == s.data(v).len()
            &&& forall|j: int| k <= j < ws.len() ==> e.word(v, base + 4 * j) == #[trigger] ws[j]
            &&& forall|i: int| 0 <= i && i + 4 <= base + 4 * k ==> #[trigger] e.word(v, i) == s.word(v, i)
        }),
    decreases ws.len() - k,
{
    if k < ws.len() {
        let a = s.with_word(v, base + 4 * k, ws[k]);
        lemma_word_only_at(s, v, base + 4 * k, ws[k]);
        lemma_write_words(a, v, base, ws, k + 1);
        let e = s.write_words(v, base, ws, k);
        lemma_only_at_trans(s, a, e, v);
        assert(a.word(v, base + 4 * k) == ws[k]) by {
            crate::bytes::lemma_word_read_write(s.data(v), base + 4 * k, ws[k]);
        }
        assert forall|j: int| k <= j < ws.len() implies e.word(v, base + 4 * j) == #[trigger] ws[j] by {
            if j == k {
                assert(e.word(v, base + 4 * k) == a.word(v, base + 4 * k));
            }
        }
        assert forall|i: int| 0 <= i && i + 4 <= base + 4 * k implies #[trigger] e.word(v, i)
            == s.word(v, i) by {
            assert(e.word(v, i) == a.word(v, i));
            crate::bytes::lemma_word_read_other(s.data(v), base + 4 * k, i, ws[k]);
        }
    } else {
        assert(only_at(s, s, v));
    }
}

/// A runtime whose heap was reset and that holds no values yet is healthy.
pub proof fn law_new_runtime_is_healthy(s: State)
    requires
        s.roots.len() == 0,
        s.builtins is None,
        s.syms.len() == 0,
        s.methods.len() == 0,
        s.functions.len() == 0,
        s.structs.len() == 0,
        s.exc.len() == 0,
        s.main == NULL,
    ensures
        s.reset_heap().region_init().healthy(),
{
    let e = s.reset_heap().region_init();
    crate::survival::law_new_heap(s);
    reveal(State::root_list);
    assert(e.root_list() =~= seq![NULL]);
    assert forall|r: u32| #[trigger] e.root_list().contains(r) implies e.good(r) by {}
    assert(forall|v: u32| #[trigger] e.obj(v) is None);
}

} // verus!
