//! Writing into objects that are there: what is reached, and a heap's health, after a
//! payload was changed.

use vstd::prelude::*;
use crate::region::NULL;
use crate::state::State;
use crate::stores::ordinary;

verus! {

impl State {
    /// Whether the object at `p` is never read to find the references of another good
    /// object, and is no part of its own type.
    pub open spec fn unread(self, p: u32) -> bool {
        &&& self.tag(p) != p
        &&& forall|u: u32, x: u32| #[trigger]
            self.reads(u, x) && self.good(u) && self.obj(u) is Some && x != u ==> x != p
        &&& !self.is_svec(self.tag(p)) && self.is_memory_type(self.tag(p)) ==> self.parameters(
            self.tag(p),
        ) != p && !self.bits_read(
            self.svec_ref(self.parameters(self.tag(p)), 0),
            p,
            crate::access::MAX_NESTING as nat,
        )
    }
}

/// Whether the objects of `e` are those of `s` but for the payloads of the objects at
/// `p` and `q` and for collector bits.
pub open spec fn written(s: State, e: State, p: u32, q: u32) -> bool {
    &&& e.builtins == s.builtins
    &&& e.layouts == s.layouts
    &&& e.region == s.region
    &&& forall|u: u32| #[trigger] e.obj(u) is Some <==> s.obj(u) is Some
    &&& forall|u: u32| #[trigger] e.tag(u) == s.tag(u)
    &&& forall|u: u32| u != p && u != q ==> #[trigger] e.data(u) == s.data(u)
}

/// The references of other good objects stay.
pub proof fn lemma_others_refs(s: State, e: State, p: u32, q: u32, u: u32)
    requires
        written(s, e, p, q),
        s.unread(p),
        s.unread(q),
        s.good(u),
        s.obj(u) is Some,
        u != p,
        u != q,
    ensures
        e.refs_of(u) == s.refs_of(u),
{
    assert forall|x: u32| #[trigger] s.reads(u, x) implies s.tag(x) == e.tag(x) && s.data(x)
        == e.data(x) by {
        assert(x != p && x != q);
        assert(e.tag(x) == s.tag(x));
    }
    crate::survival::lemma_local_refs(s, e, u);
}

/// What is read for the references of a good object stays.
pub proof fn lemma_reads_stay(s: State, e: State, p: u32, q: u32, u: u32, x: u32)
    requires
        written(s, e, p, q),
        s.unread(p),
        s.unread(q),
        s.good(u),
        s.obj(u) is Some,
    ensures
        e.reads(u, x) == s.reads(u, x),
{
    let t = s.tag(u);
    assert(e.tag(u) == t);
    assert(s.reads(u, t));
    assert(t != p && t != q);
    assert(e.data(t) == s.data(t) && e.tag(t) == s.tag(t));
    if !s.is_svec(t) && s.is_memory_type(t) {
        let k = s.parameters(t);
        let n = crate::access::MAX_NESTING as nat;
        assert(s.reads(u, k));
        assert(k != p && k != q);
        assert(e.data(k) == s.data(k));
        let elem = s.svec_ref(k, 0);
        assert forall|y: u32| #[trigger] s.bits_read(elem, y, n) implies s.tag(y) == e.tag(y)
            && s.data(y) == e.data(y) by {
            assert(s.reads(u, y));
            assert(y != p && y != q);
            assert(e.tag(y) == s.tag(y));
        }
        crate::health::lemma_same_bits_read(s, e, elem, x, n);
    }
}

/// Whether the references of good objects in `e` are those in `s`, but for the object
/// at `q`, which may reference `r` in addition.
pub open spec fn one_more(s: State, e: State, q: u32, r: u32) -> bool {
    &&& forall|u: u32|
        s.good(u) && s.obj(u) is Some && u != q ==> #[trigger] e.refs_of(u) == s.refs_of(u)
    &&& forall|x: u32| #[trigger] e.refs_of(q).contains(x) ==> x == r || s.refs_of(q).contains(x)
    &&& forall|x: u32| x != NULL && s.refs_of(q).contains(x) ==> #[trigger] e.refs_of(q).contains(x)
}

/// Every path from a good object stays where references are only added.
proof fn lemma_path_stays(s: State, e: State, q: u32, r: u32, path: Seq<u32>, k: int)
    requires
        one_more(s, e, q, r),
        forall|u: u32| #[trigger] e.obj(u) is Some <==> s.obj(u) is Some,
        s.obj(NULL) is None,
        s.leads(path),
        s.good(path[0]),
        0 <= k < path.len(),
    ensures
        s.good(path[k]),
        k + 1 < path.len() ==> e.refs_of(path[k]).contains(path[k + 1]),
    decreases k,
{
    assert(s.obj(path[k]) is Some);
    if k > 0 {
        lemma_path_stays(s, e, q, r, path, k - 1);
        assert(s.refs_of(path[k - 1]).contains(path[k - 1 + 1]));
        assert(s.obj(path[k - 1]) is Some);
        crate::health::lemma_reaches_ref(s, path[k - 1], path[k]);
        crate::health::lemma_good_closed(s, path[k - 1], path[k]);
    }
    if k + 1 < path.len() {
        assert(s.refs_of(path[k]).contains(path[k + 1]));
        assert(s.obj(path[k + 1]) is Some);
        if path[k] != q {
            assert(e.refs_of(path[k]) == s.refs_of(path[k]));
        } else {
            assert(path[k + 1] != NULL);
            assert(e.refs_of(q).contains(path[k + 1]));
        }
    }
}

/// What is reached after a reference to `r` was added was reached before, or from `r`.
proof fn lemma_path_was(s: State, e: State, q: u32, r: u32, path: Seq<u32>, k: int)
    requires
        one_more(s, e, q, r),
        forall|u: u32| #[trigger] e.obj(u) is Some <==> s.obj(u) is Some,
        s.obj(NULL) is None,
        e.leads(path),
        s.good(path[0]),
        s.good(r),
        0 <= k < path.len(),
    ensures
        s.reaches(path[0], path[k]) || s.reaches(r, path[k]),
    decreases k,
{
    let x = path[k];
    assert(e.obj(path[k]) is Some);
    assert(s.obj(x) is Some);
    if k == 0 {
        crate::survival::lemma_reaches_self(s, x);
    } else {
        lemma_path_was(s, e, q, r, path, k - 1);
        let w = path[k - 1];
        assert(e.refs_of(path[k - 1]).contains(path[k - 1 + 1]));
        assert(e.obj(path[k - 1]) is Some);
        assert(s.obj(w) is Some);
        assert(s.good(w)) by {
            if s.reaches(path[0], w) {
                crate::health::lemma_good_closed(s, path[0], w);
            } else {
                crate::health::lemma_good_closed(s, r, w);
            }
        }
        if w != q {
            assert(e.refs_of(w) == s.refs_of(w));
        } else {
            assert(e.refs_of(q).contains(x));
        }
        if s.refs_of(w).contains(x) {
            crate::health::lemma_reaches_ref(s, w, x);
            if s.reaches(path[0], w) {
                crate::health::lemma_reaches_trans(s, path[0], w, x);
            } else {
                crate::health::lemma_reaches_trans(s, r, w, x);
            }
        } else {
            assert(x == r);
            crate::survival::lemma_reaches_self(s, r);
        }
    }
}

/// What a good object reached it still reaches.
pub proof fn lemma_still_reached(s: State, e: State, q: u32, r: u32, u: u32, x: u32)
    requires
        one_more(s, e, q, r),
        forall|w: u32| #[trigger] e.obj(w) is Some <==> s.obj(w) is Some,
        s.obj(NULL) is None,
        s.good(u),
        s.reaches(u, x),
    ensures
        e.reaches(u, x),
{
    let was = choose|path: Seq<u32>| #[trigger]
        s.leads(path) && path[0] == u && path.last() == x;
    assert(e.leads(was)) by {
        assert forall|k: int| 0 <= k < was.len() implies e.obj(#[trigger] was[k]) is Some by {
            assert(s.obj(was[k]) is Some);
        }
        assert forall|k: int| 0 <= k < was.len() - 1 implies e.refs_of(#[trigger] was[k]).contains(
            was[k + 1],
        ) by {
            lemma_path_stays(s, e, q, r, was, k);
        }
    }
}

/// Adding a reference to a good value keeps good what is good.
proof fn lemma_more_refs_good(s: State, e: State, p: u32, q: u32, r: u32, v: u32)
    requires
        written(s, e, p, q),
        s.unread(p),
        s.unread(q),
        ordinary(s, p),
        ordinary(s, q),
        one_more(s, e, q, r),
        s.obj(NULL) is None,
        s.good(v),
        s.good(r),
    ensures
        e.good(v),
{
    if v != NULL {
        assert(s.obj(v) is Some);
        assert(e.obj(v) is Some);
        assert forall|u: u32| #[trigger] e.reaches(v, u) implies e.sound(u) by {
            let path = choose|path: Seq<u32>| #[trigger]
                e.leads(path) && path[0] == v && path.last() == u;
            lemma_path_was(s, e, q, r, path, path.len() - 1);
            assert(s.sound(u) && s.good(u)) by {
                if s.reaches(v, u) {
                    crate::health::lemma_good_closed(s, v, u);
                } else {
                    crate::health::lemma_good_closed(s, r, u);
                }
            }
            assert(e.obj(path[path.len() - 1]) is Some);
            assert(s.obj(u) is Some);
            assert forall|k: int|
                #![trigger e.refs_of(u)[k]]
                0 <= k < e.refs_of(u).len() && e.refs_of(u)[k] != NULL implies e.obj(
                e.refs_of(u)[k],
            ) is Some by {
                let x = e.refs_of(u)[k];
                if u != q {
                    assert(s.refs_of(u)[k] == x);
                } else {
                    assert(e.refs_of(q).contains(x));
                    if s.refs_of(q).contains(x) {
                        let j = choose|j: int| 0 <= j < s.refs_of(q).len() && s.refs_of(q)[j] == x;
                        assert(s.obj(s.refs_of(u)[j]) is Some);
                    }
                }
                assert(s.obj(x) is Some);
            }
            assert forall|x: u32| #[trigger] e.reads(u, x) && x != NULL implies e.reaches(u, x) by {
                lemma_reads_stay(s, e, p, q, u, x);
                lemma_still_reached(s, e, q, r, u, x);
            }
            assert(e.typed(u)) by {
                assert(e.tag(s.tag(u)) == s.tag(s.tag(u)));
                if u != p && u != q {
                    assert(e.data(u) == s.data(u));
                    assert(e.tag(s.parameters(u)) == s.tag(s.parameters(u)));
                }
            }
            if e.tag(u) == e.builtin(crate::id::DATATYPE) && e.parameters(u) != NULL {
                assert(e.data(u) == s.data(u));
                lemma_still_reached(s, e, q, r, u, s.parameters(u));
            }
        }
    }
}

/// Adding a reference to a good value keeps a heap healthy.
pub proof fn lemma_more_refs_healthy(s: State, e: State, p: u32, q: u32, r: u32)
    requires
        s.healthy(),
        e.heap_ok(),
        e == (State { objs: e.objs, remembered: e.remembered, ..s }),
        written(s, e, p, q),
        s.unread(p),
        s.unread(q),
        ordinary(s, p),
        ordinary(s, q),
        one_more(s, e, q, r),
        s.good(r),
        forall|u: u32| #[trigger] e.is_marked(u) == s.is_marked(u),
    ensures
        e.healthy(),
        e.root_list() == s.root_list(),
        forall|v: u32| #[trigger] s.good(v) ==> e.good(v),
{
    crate::slots::lemma_empty_places(s, 0, 0);
    reveal(State::root_list);
    assert(e.root_list() =~= s.root_list());
    assert forall|v: u32| #[trigger] s.good(v) implies e.good(v) by {
        lemma_more_refs_good(s, e, p, q, r, v);
    }
    assert forall|x: u32| #[trigger] e.root_list().contains(x) implies e.good(x) by {
        assert(s.good(x));
    }
    assert forall|v: u32| #[trigger] e.is_marked(v) implies e.good(v) by {
        assert(s.is_marked(v));
        assert(s.good(v));
    }
}

/// The collector's invariant where the references of every marked object stay.
pub proof fn lemma_refs_stay_heap(s: State, e: State, p: u32)
    requires
        s.heap_ok(),
        crate::health::only_at(s, e, p),
        forall|u: u32| s.is_marked(u) ==> #[trigger] e.refs_of(u) == s.refs_of(u),
    ensures
        e.heap_ok(),
{
    assert forall|u: u32| #[trigger] e.obj(u) is Some <==> s.obj(u) is Some by {
        assert(u != p ==> e.obj(u) == s.obj(u));
    }
    assert forall|u: u32| #[trigger] e.is_marked(u) == s.is_marked(u) && e.is_old(u) == s.is_old(u) by {
        assert(u != p ==> e.obj(u) == s.obj(u));
    }
    crate::survival::lemma_like_pages(s, e);
    crate::slots::lemma_same_tell(s, e);
    assert forall|k: int| 0 <= k < e.remembered.len() implies e.is_marked(
        #[trigger] e.remembered[k],
    ) by {
        assert(s.is_marked(s.remembered[k]));
        assert(e.is_marked(s.remembered[k]) == s.is_marked(s.remembered[k]));
    }
    assert forall|u: u32| #[trigger] e.is_marked(u) && !e.is_old(u) implies e.remembered.contains(
        u,
    ) by {
        assert(s.is_marked(u) && !s.is_old(u));
    }
    assert forall|u: u32| #[trigger] e.is_marked(u) && !e.remembered.contains(u) implies e.refs_marked(
        u,
        e,
    ) by {
        assert(s.is_marked(u));
        assert(s.refs_marked(u, s));
        assert(e.refs_of(u) == s.refs_of(u));
        assert forall|i: int|
            0 <= i < e.refs_of(u).len() && e.obj(#[trigger] e.refs_of(u)[i]) is Some implies e.is_marked(
            e.refs_of(u)[i],
        ) by {
            let w = s.refs_of(u)[i];
            assert(s.obj(w) is Some);
            assert(s.is_marked(w));
            assert(e.is_marked(w) == s.is_marked(w));
        }
    }
}

/// The write barrier changes collector bits and what is remembered alone.
pub proof fn lemma_barrier(s: State, b: u32, m: u32)
    ensures
        ({
            let a = s.write_barrier(b, m);
            &&& a == (State { objs: a.objs, remembered: a.remembered, ..s })
            &&& forall|u: u32| #[trigger] a.obj(u) is Some <==> s.obj(u) is Some
            &&& forall|u: u32| #[trigger] a.tag(u) == s.tag(u)
            &&& forall|u: u32| #[trigger] a.data(u) == s.data(u)
        }),
{
    let a = s.write_barrier(b, m);
    if a != s {
        crate::survival::lemma_with_bits(s, b, true, false);
        let w = s.with_bits(b, true, false);
        assert(forall|u: u32| #[trigger] a.obj(u) == w.obj(u));
        assert(s.same_objects(w));
    }
}

/// A store marks nothing and unmarks nothing.
pub proof fn lemma_marks_stay(s: State, m: u32, i: int, v: u32)
    requires
        s.obj(m) is Some,
    ensures
        forall|u: u32| #[trigger] s.set_ref(m, i, v).is_marked(u) == s.is_marked(u),
{
    let a = s.write_barrier(m, v);
    if a != s {
        crate::survival::lemma_with_bits(s, m, true, false);
        let w = s.with_bits(m, true, false);
        assert(forall|u: u32| #[trigger] a.obj(u) == w.obj(u));
        assert(forall|u: u32| #[trigger] a.is_marked(u) == w.is_marked(u));
        assert(s.is_marked(m));
    }
    assert(a.obj(m) is Some);
    let e = s.set_ref(m, i, v);
    assert forall|u: u32| #[trigger] e.is_marked(u) == s.is_marked(u) by {
        assert(a.is_marked(u) == s.is_marked(u));
        if a.has_slot(u) && a.has_slot(m) && u != m {
            assert(u / 8 != m / 8);
        }
    }
}

/// What copying bytes from one block to another does.
pub proof fn lemma_copy(s: State, dst: u32, at: int, src: u32, from: int, n: int, k: int)
    requires
        dst != src,
        s.obj(dst) is Some,
        0 <= k <= n,
        0 <= at,
        0 <= from,
        at + n <= s.data(dst).len(),
        from + n <= s.data(src).len(),
    ensures
        ({
            let e = s.copy_payload(dst, at, src, from, n, k);
            &&& crate::health::only_at(s, e, dst)
            &&& e.tag(dst) == s.tag(dst)
            &&& e.data(dst).len() == s.data(dst).len()
            &&& forall|j: int|
                0 <= j < s.data(dst).len() ==> #[trigger] e.data(dst)[j] == if at + k <= j < at
                    + n {
                    s.data(src)[j - at + from]
                } else {
                    s.data(dst)[j]
                }
        }),
    decreases n - k,
{
    if k < n {
        let a = s.with_byte(dst, at + k, s.byte(src, from + k));
        assert(forall|u: u32| u != dst ==> #[trigger] a.obj(u) == s.obj(u)) by {
            assert forall|u: u32| u != dst implies #[trigger] a.obj(u) == s.obj(u) by {
                if s.has_slot(u) {
                    assert(u / 8 != dst / 8);
                }
            }
        }
        assert(a.data(src) == s.data(src));
        lemma_copy(a, dst, at, src, from, n, k + 1);
        let e = s.copy_payload(dst, at, src, from, n, k);
        assert(e == a.copy_payload(dst, at, src, from, n, k + 1));
        assert(crate::health::only_at(s, a, dst));
        crate::health::lemma_only_at_trans(s, a, e, dst);
    }
}

/// What a type says of the references of its instances is found in it and its layout.
pub proof fn lemma_holds_same(s: State, e: State, t: u32, n: int)
    requires
        s.holds_refs(t, n),
        e.builtins == s.builtins,
        e.layouts == s.layouts,
        e.tag(t) == s.tag(t),
        e.data(t) == s.data(t),
    ensures
        e.holds_refs(t, n),
{
    assert(e.layout(t) == s.layout(t));
    assert forall|i: int| 0 <= i < n implies #[trigger] e.layout_ptr_offset(t, i) == 4 * i by {
        assert(s.layout_ptr_offset(t, i) == 4 * i);
    }
}

/// The same where the core types by which references are found are the same.
pub proof fn lemma_holds_kept(s: State, e: State, t: u32, n: int)
    requires
        s.holds_refs(t, n),
        crate::survival::same_kinds(s, e),
        e.layouts == s.layouts,
        e.tag(t) == s.tag(t),
        e.data(t) == s.data(t),
    ensures
        e.holds_refs(t, n),
{
    assert(e.layout(t) == s.layout(t));
    assert forall|i: int| 0 <= i < n implies #[trigger] e.layout_ptr_offset(t, i) == 4 * i by {
        assert(s.layout_ptr_offset(t, i) == 4 * i);
    }
}

/// The core types go on to describe their instances when an ordinary object is
/// written.
pub proof fn lemma_described_written(s: State, e: State, p: u32)
    requires
        written(s, e, p, p),
        s.described(),
        ordinary(s, p),
    ensures
        e.described(),
{
    let dt = s.builtin(crate::id::DATATYPE);
    let tn = s.builtin(crate::id::TYPENAME);
    let sv = s.builtin(crate::id::SVEC);
    let sy = s.builtin(crate::id::SYMBOL);
    let mo = s.builtin(crate::id::MODULE);
    assert(dt != p && tn != p && sy != p && mo != p);
    assert(e.data(dt) == s.data(dt) && e.data(tn) == s.data(tn) && e.data(sy) == s.data(sy)
        && e.data(mo) == s.data(mo));
    assert(e.tag(dt) == dt && e.tag(tn) == dt && e.tag(sv) == dt && e.tag(sy) == dt && e.tag(mo)
        == dt);
    lemma_holds_same(s, e, dt, 5);
    lemma_holds_same(s, e, tn, 3);
    lemma_holds_same(s, e, sy, 0);
    lemma_holds_same(s, e, mo, 3);
}

} // verus!
