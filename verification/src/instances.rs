//! Instantiations and modules keep a heap in order.

use std::rc::Rc;
use vstd::prelude::*;
use crate::abi::demo_methods;
use crate::definitions::{
    carried, follows, lemma_beside, lemma_core, lemma_core_good, lemma_follows_trans,
    lemma_hold, lemma_hold_one, lemma_register, lemma_root, lemma_root_follows,
    lemma_root_rooted, lemma_rooted_kept, lemma_svec, lemma_top, lemma_write_type, root,
    tables_stay,
};
use crate::health::{
    lemma_fill_healthy, lemma_good_closed, lemma_reaches_ends, lemma_reaches_ref, loose, only_at,
};
use crate::id;
use crate::ir::{Body, Entry};
use crate::region::NULL;
use crate::state::State;
use crate::stores::{lemma_good_is_local, lemma_local_good, lemma_store_plain, rewritten};
use crate::survival::lemma_reaches_self;
use crate::types::{DataType, DT_SIZE};
use crate::uniquing::{
    lemma_alloc_pushed, lemma_base_of_kept, lemma_described_kept, lemma_svec_refs,
};

verus! {

impl State {
    /// Whether `n` is a name with a vector of types, or without types.
    pub open spec fn fit_name(self, n: u32) -> bool {
        &&& n != NULL
        &&& self.root_list().contains(n)
        &&& self.tag(n) == self.builtin(id::TYPENAME)
        &&& self.data(n).len() == 16
        &&& self.word(n, 4) == NULL || self.tag(self.word(n, 4)) == self.builtin(id::SVEC)
    }

    /// Whether `t` is the last of the types of the name `n`.
    pub open spec fn lists_last(self, n: u32, t: u32) -> bool {
        let c = self.word(n, 4);
        &&& c != NULL
        &&& self.svec_seq(c).len() > 0
        &&& self.svec_seq(c).last() == t
    }
}

/// What a name's vector holds is good.
proof fn lemma_cached_good(s: State, tn: u32)
    requires
        s.in_order(),
        s.fit_name(tn),
    ensures
        s.good(s.word(tn, 4)),
        forall|i: int|
            0 <= i < s.svec_seq(s.word(tn, 4)).len() ==> s.good(
                #[trigger] s.svec_seq(s.word(tn, 4))[i],
            ),
{
    lemma_core(s);
    lemma_top(s);
    let c = s.word(tn, 4);
    assert(s.good(tn));
    lemma_reaches_self(s, tn);
    lemma_good_is_local(s, tn, tn);
    if c != NULL {
        crate::uniquing::lemma_plain_refs(s, tn, 3);
        assert(s.refs_of(tn)[2] == s.word(tn, 4 * 1int));
        assert(s.refs_of(tn).contains(c));
        lemma_reaches_ref(s, tn, c);
        lemma_good_closed(s, tn, c);
        lemma_good_is_local(s, tn, c);
        let elems = s.svec_seq(c);
        lemma_svec_refs(s, c, elems);
        assert forall|i: int| 0 <= i < elems.len() implies s.good(#[trigger] elems[i]) by {
            let x = elems[i];
            assert(s.refs_of(c)[1 + i] == x);
            assert(s.refs_of(c).contains(x));
            if x != NULL {
                lemma_reaches_ref(s, c, x);
                lemma_good_closed(s, c, x);
            }
        }
    }
}

/// A type that is found is one of the vector's.
proof fn lemma_found(s: State, cache: u32, params: Seq<u32>, i: int)
    requires
        0 <= i,
        s.cached_from(cache, params, i) != NULL,
        cache != NULL,
    ensures
        exists|j: int|
            0 <= j < s.svec_seq(cache).len() && #[trigger] s.svec_seq(cache)[j] == s.cached_from(
                cache,
                params,
                i,
            ),
    decreases s.svec_len(cache) - i,
{
    if i < s.svec_len(cache) {
        let p = s.parameters(s.svec_ref(cache, i));
        if p != NULL && s.svec_seq(p) == params {
            assert(s.svec_seq(cache)[i] == s.svec_ref(cache, i));
        } else {
            lemma_found(s, cache, params, i + 1);
        }
    }
}

/// Allocating with one good value held meanwhile.
#[verifier::rlimit(40)]
proof fn lemma_beside_held(s: State, x: u32, t: u32, size: int)
    requires
        s.in_order(),
        s.good(x),
        0 <= size,
    ensures
        ({
            let (b, v) = s.push_root(x).alloc_object(t, size);
            let e = b.pop_roots(1);
            &&& follows(s, e)
            &&& tables_stay(s, e)
            &&& e.syms == s.syms
            &&& e.layouts == s.layouts
            &&& s.region.top <= e.region.top
            &&& v != NULL ==> {
                &&& loose(e, v)
                &&& e.tag(v) == t - t % 4
                &&& e.data(v) == crate::bytes::zeros(size as nat)
                &&& !e.reaches(x, v)
                &&& !e.reaches(NULL, v)
            }
            &&& e.good(x)
            &&& x != NULL ==> s.kept(e, x)
            &&& forall|r: u32| #[trigger]
                s.root_list().contains(r) ==> e.good(r) && (v != NULL ==> !e.reaches(r, v))
        }),
{
    reveal(State::in_order);
    reveal(carried);
    let xs = seq![x];
    assert(s.push_root(x) =~= s.push_roots(xs)) by {
        assert(s.roots.push(x) =~= s.roots + xs);
    }
    assert(xs[0] == x);
    lemma_alloc_pushed(s, xs, t, size);
    let (b, v) = s.push_roots(xs).alloc_object(t, size);
    let e = b.pop_roots(1);
    crate::slots::lemma_empty_places(e, 0, 0);
    if e.reaches(NULL, v) {
        lemma_reaches_ends(e, NULL, v);
    }
    if x != NULL {
        lemma_reaches_self(s, x);
        assert(crate::health::reach_kept(s, e, x));
    }
}

/// The type of a new instantiation, before it is entered under its name.
pub open spec fn instance_type(tn: u32, super_: u32, p: u32, layout: u32, size: u32) -> DataType {
    DataType {
        name: tn,
        super_,
        parameters: p,
        types: NULL,
        instance: NULL,
        layout,
        size,
        nfields: 0,
        flags: 0,
    }
}

/// A new instantiation is good.
proof fn lemma_instance(s: State, tn: u32, super_: u32, params: Seq<u32>, layout: u32, size: u32)
    requires
        s.in_order(),
        s.root_list().contains(tn),
        super_ == NULL || s.root_list().contains(super_),
        forall|i: int| 0 <= i < params.len() ==> s.good(#[trigger] params[i]),
        layout < s.region.top,
    ensures
        ({
            let (s1, p) = s.make_svec(params);
            let (s2, t) = s1.push_root(p).alloc_object(s1.builtin(id::DATATYPE), DT_SIZE as int);
            let e = s2.pop_roots(1).write_dt(t, instance_type(tn, super_, p, layout, size));
            &&& follows(s, e)
            &&& tables_stay(s, e)
            &&& e.syms == s.syms
            &&& e.layouts == s.layouts
            &&& e.good(t)
            &&& t != NULL ==> {
                &&& e.tag(t) == e.builtin(id::DATATYPE)
                &&& e.name_of(t) == tn
                &&& e.layout(t) == layout
                &&& !s.rooted(t)
            }
        }),
{
    let (s1, p) = s.make_svec(params);
    lemma_svec(s, params);
    let dt = s1.builtin(id::DATATYPE);
    assert(dt % 4 == 0 && s1.root_list().contains(dt)) by {
        lemma_core(s1);
    }
    lemma_beside_held(s1, p, dt, DT_SIZE as int);
    let (s2, t) = s1.push_root(p).alloc_object(dt, DT_SIZE as int);
    let y = s2.pop_roots(1);
    let d = instance_type(tn, super_, p, layout, size);
    let e = y.write_dt(t, d);
    lemma_follows_trans(s, s1, y);
    lemma_root_follows(s, s1, tn);
    if super_ != NULL {
        lemma_root_follows(s, s1, super_);
    }
    lemma_grows(s, s1);
    if t == NULL {
        lemma_top(y);
        assert(e == y);
    } else {
        assert(tn == NULL || s1.root_list().contains(tn));
        lemma_write_type(y, t, d);
        lemma_follows_trans(s, y, e);
        crate::definitions::lemma_loose_unrooted(e, t);
        crate::definitions::lemma_unrooted(s, e, t);
    }
}

/// The region grows only.
pub proof fn lemma_grows(s: State, e: State)
    requires
        follows(s, e),
    ensures
        s.region.top <= e.region.top,
        e.builtins == s.builtins,
        forall|off: u32, k: int|
            off < s.region.top ==> #[trigger] e.layout_word(off, k) == s.layout_word(off, k),
{
    reveal(carried);
}

/// The new vector of a name, before it is stored.
proof fn lemma_new_vector(s: State, s3: State, tn: u32, t: u32)
    requires
        s.in_order(),
        follows(s, s3),
        tables_stay(s, s3),
        s3.syms == s.syms,
        s.fit_name(tn),
        s3.good(t),
    ensures
        ({
            let elems = s3.svec_seq(s3.word(tn, 4)).push(t);
            let (w, v) = s3.push_root(t).make_svec(elems);
            let q = w.pop_roots(1);
            &&& follows(s, q)
            &&& tables_stay(s, q)
            &&& q.syms == s.syms
            &&& q.layouts == s3.layouts
            &&& s3.region.top <= q.region.top
            &&& q.good(t)
            &&& q.good(v)
            &&& t != NULL ==> s3.kept(q, t)
            &&& v != NULL ==> q.tag(v) == q.builtin(id::SVEC) && q.svec_seq(v) == elems
            &&& q.fit_name(tn)
        }),
{
    lemma_root_rooted(s, tn);
    lemma_rooted_kept(s, s3, tn);
    lemma_root_follows(s, s3, tn);
    let c = s.word(tn, 4);
    if c != NULL {
        lemma_cache_rooted(s, tn);
        lemma_rooted_kept(s, s3, c);
    }
    lemma_grows(s, s3);
    assert(s3.fit_name(tn));
    lemma_cached_good(s3, tn);
    let elems = s3.svec_seq(s3.word(tn, 4)).push(t);
    let z = s3.push_root(t);
    lemma_hold_one(s3, t);
    assert forall|i: int| 0 <= i < elems.len() implies z.good(#[trigger] elems[i]) by {
        if i < elems.len() - 1 {
            assert(s3.good(s3.svec_seq(s3.word(tn, 4))[i]));
        }
    }
    lemma_svec(z, elems);
    let (w, v) = z.make_svec(elems);
    lemma_grows(z, w);
    let q = w.pop_roots(1);
    lemma_follows_trans(s3, z, w);
    assert(follows(s3, q) && (forall|x: u32| #[trigger] w.good(x) ==> q.good(x)) && q.roots
        == s3.roots) by {
        reveal(carried);
        assert(w.roots.take(s3.roots.len() as int) =~= s3.roots);
        crate::definitions::lemma_release(s3, w, 1);
    }
    assert(forall|u: u32| #[trigger] q.obj(u) == w.obj(u));
    lemma_follows_trans(s, s3, q);
    lemma_rooted_kept(s, q, tn);
    lemma_root_follows(s, q, tn);
    if t != NULL {
        lemma_root_follows(z, w, t);
        assert(z.obj(t) == s3.obj(t));
    } else {
        lemma_top(q);
    }
    if c != NULL {
        lemma_rooted_kept(s, q, c);
    }
    lemma_grows(s, q);
    assert(q.svec_seq(v) =~= w.svec_seq(v));
}

/// The first vector of a name adds one reference.
#[verifier::rlimit(40)]
proof fn lemma_first_vector(q: State, e: State, tn: u32, v: u32)
    requires
        q.healthy(),
        q.described(),
        q.fit_name(tn),
        q.word(tn, 4) == NULL,
        e == q.set_ref(tn, 4, v),
    ensures
        crate::writes::one_more(q, e, tn, v),
        forall|w: u32| #[trigger] e.obj(w) is Some <==> q.obj(w) is Some,
{
    crate::slots::lemma_empty_places(q, 0, 0);
    crate::stores::lemma_set_ref(q, tn, 4, v);
    crate::writes::lemma_described_written(q, e, tn);
    crate::uniquing::lemma_plain_refs(q, tn, 3);
    crate::uniquing::lemma_plain_refs(e, tn, 3);
    let old = q.refs_of(tn);
    let new = e.refs_of(tn);
    assert(e.word(tn, 4 * 0int) == q.word(tn, 4 * 0int));
    assert(e.word(tn, 4 * 2int) == q.word(tn, 4 * 2int));
    assert(e.word(tn, 4 * 1int) == v);
    assert(new[0] == old[0] && new[1] == old[1] && new[2] == v && new[3] == old[3] && old[2]
        == NULL) by {
        assert(old[1] == q.word(tn, 4 * 0int) && old[2] == q.word(tn, 4 * 1int) && old[3] == q.word(
            tn,
            4 * 2int,
        ));
        assert(new[1] == e.word(tn, 4 * 0int) && new[2] == e.word(tn, 4 * 1int) && new[3] == e.word(
            tn,
            4 * 2int,
        ));
    }
    assert forall|x: u32| #[trigger] new.contains(x) implies x == v || old.contains(x) by {
        let k = choose|k: int| 0 <= k < new.len() && new[k] == x;
        assert(k == 0 || k == 1 || k == 2 || k == 3);
        if k != 2 {
            assert(old[k] == x);
        }
    }
    assert forall|x: u32| x != NULL && old.contains(x) implies #[trigger] new.contains(x) by {
        let k = choose|k: int| 0 <= k < old.len() && old[k] == x;
        assert(k == 0 || k == 1 || k == 2 || k == 3);
        assert(new[k] == x);
    }
    assert forall|u: u32| q.good(u) && q.obj(u) is Some && u != tn implies #[trigger] e.refs_of(u)
        == q.refs_of(u) by {
        crate::stores::lemma_quiet(q, e, tn, u);
    }
}

/// Storing the vector of a name.
#[verifier::rlimit(40)]
proof fn lemma_vector_stored(q: State, tn: u32, v: u32)
    requires
        q.in_order(),
        q.fit_name(tn),
        q.good(v),
        v == NULL || q.tag(v) == q.builtin(id::SVEC),
    ensures
        ({
            let e = q.set_ref(tn, 4, v);
            &&& e.in_order()
            &&& e.root_list() == q.root_list()
            &&& rewritten(q, e, tn)
            &&& e == (State { objs: e.objs, remembered: e.remembered, ..q })
            &&& forall|x: u32| #[trigger] q.good(x) ==> e.good(x)
            &&& e.fit_name(tn)
            &&& e.word(tn, 4) == v
            &&& q.word(tn, 4) == NULL ==> forall|u: u32| #[trigger] q.rooted(u) ==> e.rooted(u)
        }),
{
    lemma_core(q);
    lemma_top(q);
    assert(q.good(tn));
    lemma_reaches_self(q, tn);
    assert(q.live(tn));
    lemma_store_plain(q, tn, 3, 1, v);
    crate::stores::lemma_set_ref(q, tn, 4, v);
    let e = q.set_ref(tn, 4, v);
    if q.word(tn, 4) == NULL {
        assert forall|u: u32| #[trigger] q.rooted(u) implies e.rooted(u) by {
            let r = choose|r: u32| q.root_list().contains(r) && #[trigger] q.reaches(r, u);
            assert(q.good(r));
            lemma_first_vector(q, e, tn, v);
            crate::writes::lemma_still_reached(q, e, tn, v, r, u);
        }
    }
    assert(e.in_order()) by {
        reveal(State::in_order);
    }
    assert(e.tag(v) == q.tag(v));
}

/// Entering a type under its name.
proof fn lemma_enter(s: State, s3: State, tn: u32, t: u32)
    requires
        s.in_order(),
        follows(s, s3),
        tables_stay(s, s3),
        s3.syms == s.syms,
        s.fit_name(tn),
        s3.good(t),
    ensures
        ({
            let e = s3.cache_insert(tn, t);
            &&& e.in_order()
            &&& tables_stay(s, e)
            &&& e.syms == s.syms
            &&& e.root_list() == s.root_list()
            &&& e.good(t)
            &&& e.fit_name(tn)
            &&& forall|u: u32| #[trigger] s.rooted(u) && u != tn ==> s.kept(e, u)
            &&& t != NULL && t != tn ==> s3.kept(e, t)
            &&& e.word(tn, 4) != NULL && t != NULL ==> e.lists_last(tn, t)
            &&& s3.region.top <= e.region.top
            &&& e.layouts == s3.layouts
            &&& s.word(tn, 4) == NULL ==> forall|u: u32| #[trigger] s.rooted(u) ==> e.rooted(u)
        }),
{
    reveal(State::cache_insert);
    let elems = s3.svec_seq(s3.word(tn, 4)).push(t);
    let (w, v) = s3.push_root(t).make_svec(elems);
    let q = w.pop_roots(1);
    lemma_new_vector(s, s3, tn, t);
    lemma_vector_stored(q, tn, v);
    let e = q.set_ref(tn, 4, v);
    lemma_same_tables(s, q);
    if s.word(tn, 4) == NULL {
        lemma_root_rooted(s, tn);
        lemma_rooted_kept(s, q, tn);
        assert forall|u: u32| #[trigger] s.rooted(u) implies e.rooted(u) by {
            lemma_rooted_kept(s, q, u);
        }
    }
    assert forall|u: u32| #[trigger] s.rooted(u) && u != tn implies s.kept(e, u) by {
        lemma_rooted_kept(s, q, u);
        assert(e.data(u) == q.data(u) && e.tag(u) == q.tag(u));
        assert(e.obj(u) is Some);
    }
    if t != NULL {
        if t != tn {
            assert(e.data(t) == q.data(t) && e.tag(t) == q.tag(t));
            assert(e.obj(t) is Some);
        }
        if v != NULL {
            assert(v != tn) by {
                lemma_core(q);
            }
            assert(e.data(v) == q.data(v));
            assert(e.svec_seq(v) =~= elems);
        }
    }
}

/// A type that was entered is reached from its name.
proof fn lemma_entered(e: State, tn: u32, t: u32)
    requires
        e.in_order(),
        e.fit_name(tn),
        e.lists_last(tn, t),
        t != NULL,
    ensures
        e.rooted(t),
        e.reaches(tn, t),
{
    let v = e.word(tn, 4);
    lemma_core(e);
    lemma_top(e);
    assert(e.good(tn));
    lemma_reaches_self(e, tn);
    lemma_good_is_local(e, tn, tn);
    crate::uniquing::lemma_plain_refs(e, tn, 3);
    assert(e.refs_of(tn)[2] == e.word(tn, 4 * 1int));
    assert(e.refs_of(tn).contains(v));
    lemma_reaches_ref(e, tn, v);
    lemma_good_is_local(e, tn, v);
    let elems = e.svec_seq(v);
    lemma_svec_refs(e, v, elems);
    assert(e.refs_of(v)[elems.len() as int] == t);
    assert(e.refs_of(v).contains(t));
    lemma_reaches_ref(e, v, t);
    crate::health::lemma_reaches_trans(e, tn, v, t);
}

/// The vector of a name is reached from it.
proof fn lemma_cache_rooted(s: State, tn: u32)
    requires
        s.in_order(),
        s.fit_name(tn),
        s.word(tn, 4) != NULL,
    ensures
        s.rooted(s.word(tn, 4)),
{
    lemma_core(s);
    lemma_top(s);
    assert(s.good(tn));
    lemma_reaches_self(s, tn);
    lemma_good_is_local(s, tn, tn);
    crate::uniquing::lemma_plain_refs(s, tn, 3);
    assert(s.refs_of(tn)[2] == s.word(tn, 4 * 1int));
    assert(s.refs_of(tn).contains(s.word(tn, 4)));
    lemma_reaches_ref(s, tn, s.word(tn, 4));
}

/// The roots of states with the same tables.
proof fn lemma_same_tables(s: State, e: State)
    requires
        tables_stay(s, e),
        e.syms == s.syms,
    ensures
        e.root_list() == s.root_list(),
{
    reveal(State::root_list);
}

/// An instantiation keeps a heap in order; the type is good, and the roots stay, but
/// for the vector of the name.
pub proof fn lemma_apply(s: State, tn: u32, super_: u32, params: Seq<u32>, layout: u32, size: u32)
    requires
        s.in_order(),
        s.fit_name(tn),
        super_ == NULL || s.root_list().contains(super_),
        forall|i: int| 0 <= i < params.len() ==> s.good(#[trigger] params[i]),
        layout < s.region.top,
    ensures
        ({
            let (e, t) = s.apply(tn, super_, params, layout, size);
            &&& e.in_order()
            &&& tables_stay(s, e)
            &&& e.syms == s.syms
            &&& e.root_list() == s.root_list()
            &&& e.good(t)
            &&& e.fit_name(tn)
            &&& s.region.top <= e.region.top
            &&& e.layouts == s.layouts
            &&& forall|u: u32| #[trigger] s.rooted(u) && u != tn ==> s.kept(e, u)
            &&& s.word(tn, 4) == NULL ==> forall|u: u32| #[trigger] s.rooted(u) ==> e.rooted(u)
            &&& s.word(tn, 4) == NULL && t != NULL ==> {
                &&& e.tag(t) == e.builtin(id::DATATYPE)
                &&& e.name_of(t) == tn
                &&& e.layout(t) == layout
                &&& !s.rooted(t)
                &&& e.word(tn, 4) != NULL ==> e.lists_last(tn, t)
            }
        }),
{
    reveal(State::apply);
    let cached = s.cache_lookup(tn, params);
    if cached != NULL {
        lemma_cached_good(s, tn);
        lemma_found(s, s.word(tn, 4), params, 0);
        assert forall|u: u32| #[trigger] s.rooted(u) implies s.kept(s, u) by {
            let r = choose|r: u32| s.root_list().contains(r) && #[trigger] s.reaches(r, u);
            lemma_reaches_ends(s, r, u);
        }
    } else {
        let (s1, p) = s.make_svec(params);
        let (s2, t) = s1.push_root(p).alloc_object(s1.builtin(id::DATATYPE), DT_SIZE as int);
        let s3 = s2.pop_roots(1).write_dt(t, instance_type(tn, super_, p, layout, size));
        lemma_instance(s, tn, super_, params, layout, size);
        lemma_grows(s, s3);
        lemma_enter(s, s3, tn, t);
        lemma_root_rooted(s, tn);
    }
}

/// An instantiation keeps a heap in order, and the type that it gives is good.
pub proof fn law_instantiation_keeps_health(
    s: State,
    tn: u32,
    super_: u32,
    params: Seq<u32>,
    layout: u32,
    size: u32,
)
    requires
        s.healthy(),
        s.described(),
        s.fit_name(tn),
        super_ == NULL || s.root_list().contains(super_),
        forall|i: int| 0 <= i < params.len() ==> s.good(#[trigger] params[i]),
        layout < s.region.top,
    ensures
        s.apply(tn, super_, params, layout, size).0.healthy(),
        s.apply(tn, super_, params, layout, size).0.described(),
        s.apply(tn, super_, params, layout, size).0.fit_name(tn),
        s.apply(tn, super_, params, layout, size).0.good(
            s.apply(tn, super_, params, layout, size).1,
        ),
{
    reveal(State::in_order);
    lemma_apply(s, tn, super_, params, layout, size);
}

// --- methods ----------------------------------------------------------------

/// Entering a method keeps a heap in order.
proof fn lemma_with_method(s: State, m: Entry)
    requires
        s.in_order(),
        s.good(m.sig),
    ensures
        follows(s, s.with_method(m)),
        forall|n: u32| #[trigger] s.fit_name(n) ==> s.with_method(m).fit_name(n),
{
    let e = s.with_method(m);
    assert forall|r: u32| #[trigger] root(e, r) implies root(s, r) || r == m.sig || r == NULL by {
        if exists|i: int| 0 <= i < e.methods.len() && (#[trigger] e.methods[i]).sig == r {
            let i = choose|i: int| 0 <= i < e.methods.len() && (#[trigger] e.methods[i]).sig == r;
            if i < s.methods.len() {
                assert(s.methods[i].sig == r);
            }
        }
    }
    lemma_register(s, e, m.sig);
    assert(forall|u: u32| #[trigger] e.obj(u) == s.obj(u));
    assert forall|n: u32| #[trigger] s.fit_name(n) implies e.fit_name(n) by {
        lemma_root_follows(s, e, n);
    }
}

/// The demonstration methods keep a heap in order.
pub proof fn lemma_install(s: State, bodies: Seq<Rc<Body>>, i: int)
    requires
        s.in_order(),
        s.fit_name(s.tuple_name()),
        0 <= i,
    ensures
        s.install_methods(bodies, i).in_order(),
        s.install_methods(bodies, i).builtins == s.builtins,
        s.install_methods(bodies, i).roots == s.roots,
    decreases demo_methods().len() - i,
{
    if i < demo_methods().len() {
        let ids = demo_methods()[i].ids;
        let elems = ids.map_values(|k: u32| s.builtin(k));
        let tn = s.tuple_name();
        assert forall|j: int| 0 <= j < elems.len() implies s.good(#[trigger] elems[j]) by {
            lemma_core_good(s, ids[j]);
        }
        lemma_core_good(s, id::ANY);
        lemma_top(s);
        lemma_apply(s, tn, s.builtin(id::ANY), elems, NULL, 0);
        let (a, sig) = s.tuple_type(elems);
        let m = Entry { func: demo_methods()[i].func, sig, body: Some(bodies[i]), fptr1: None };
        lemma_with_method(a, m);
        lemma_install(a.with_method(m), bodies, i + 1);
    }
}

// --- objects that hold good values ------------------------------------------

/// A loose object that is filled with good values is good.
#[verifier::rlimit(40)]
pub proof fn lemma_fill_local(a: State, e: State, v: u32)
    requires
        a.in_order(),
        loose(a, v),
        only_at(a, e, v),
        e.typed(v),
        forall|x: u32| #[trigger]
            e.refs_of(v).contains(x) && x != v ==> a.good(x) && !a.reaches(x, v),
    ensures
        follows(a, e),
        loose(e, v),
        e.good(v),
        e.root_list() == a.root_list(),
        forall|x: u32| #[trigger] a.good(x) && !a.reaches(x, v) ==> e.good(x) && !e.reaches(x, v),
{
    reveal(State::in_order);
    reveal(carried);
    lemma_fill_healthy(a, e, v);
    lemma_base_of_kept(a, e);
    lemma_described_kept(a, e);
    crate::slots::lemma_empty_places(e, 0, 0);
    assert forall|w: u32| #[trigger] e.reaches(v, w) implies e.local(w) by {
        if w == v {
            assert forall|x: u32| #[trigger] e.refs_of(v).contains(x) && x != NULL implies e.obj(
                x,
            ) is Some by {
                if x != v {
                    assert(e.good(x));
                }
            }
        } else {
            lemma_leaves(e, v, w);
            let x = choose|x: u32|
                e.refs_of(v).contains(x) && x != v && #[trigger] e.reaches(x, w);
            assert(a.good(x) && !a.reaches(x, v));
            assert(e.good(x));
            lemma_good_is_local(e, x, w);
        }
    }
    lemma_local_good(e, v);
}

/// A path that leaves an object leaves it for good at some reference to another.
proof fn lemma_leaves(s: State, v: u32, w: u32)
    requires
        s.reaches(v, w),
        w != v,
    ensures
        exists|x: u32| s.refs_of(v).contains(x) && x != v && #[trigger] s.reaches(x, w),
{
    let p = choose|path: Seq<u32>| #[trigger]
        s.leads(path) && path[0] == v && path.last() == w;
    lemma_leaves_path(s, v, w, p);
}

proof fn lemma_leaves_path(s: State, v: u32, w: u32, p: Seq<u32>)
    requires
        s.leads(p),
        p[0] == v,
        p.last() == w,
        w != v,
    ensures
        exists|x: u32| s.refs_of(v).contains(x) && x != v && #[trigger] s.reaches(x, w),
    decreases p.len(),
{
    let q = p.skip(1);
    assert(s.leads(q)) by {
        assert forall|k: int| 0 <= k < q.len() implies s.obj(#[trigger] q[k]) is Some by {
            assert(q[k] == p[k + 1]);
        }
        assert forall|k: int| 0 <= k < q.len() - 1 implies s.refs_of(#[trigger] q[k]).contains(
            q[k + 1],
        ) by {
            assert(q[k] == p[k + 1] && q[k + 1] == p[k + 1 + 1]);
            assert(s.refs_of(p[k + 1]).contains(p[k + 1 + 1]));
        }
    }
    assert(q.last() == w);
    if q[0] == v {
        lemma_leaves_path(s, v, w, q);
    } else {
        assert(s.refs_of(p[0]).contains(p[0 + 1 as int]));
        assert(s.reaches(q[0], w));
    }
}

/// Releasing what is held keeps a heap in order, and everything good.
pub proof fn lemma_drop(a: State, n: int)
    requires
        a.in_order(),
        0 <= n,
    ensures
        ({
            let e = a.pop_roots(n);
            &&& e.in_order()
            &&& forall|x: u32| #[trigger] a.good(x) ==> e.good(x)
            &&& forall|x: u32, u: u32| a.good(x) ==> (#[trigger] e.reaches(x, u) <==> a.reaches(x, u))
            &&& forall|v: u32| #[trigger] loose(a, v) ==> loose(e, v)
            &&& forall|v: u32| #[trigger] e.obj(v) == a.obj(v)
        }),
{
    reveal(State::in_order);
    let e = a.pop_roots(n);
    assert(forall|v: u32| #[trigger] e.obj(v) == a.obj(v));
    assert forall|r: u32| #[trigger] root(e, r) implies root(a, r) by {
        if e.roots.contains(r) {
            let i = choose|i: int| 0 <= i < e.roots.len() && e.roots[i] == r;
            assert(a.roots[i] == r);
        }
    }
    assert forall|r: u32| #[trigger] root(e, r) implies a.good(r) by {
        assert(root(a, r));
        lemma_root(a, r);
    }
    crate::definitions::lemma_rerooted(a, e);
    assert forall|v: u32| #[trigger] loose(a, v) implies loose(e, v) by {
        if e.live(v) {
            assert(a.live(v));
        }
    }
}

// --- the table of a module --------------------------------------------------

/// Whether the name `n` stays as it is.
proof fn lemma_name_stays(s: State, e: State, n: u32, tn: u32)
    requires
        s.in_order(),
        s.fit_name(n),
        n != tn,
        s.tag(tn) == s.builtin(id::TYPENAME),
        e.builtins == s.builtins,
        e.root_list().contains(n),
        forall|u: u32| #[trigger] s.rooted(u) && u != tn ==> s.kept(e, u),
    ensures
        e.fit_name(n),
        e.word(n, 4) == s.word(n, 4),
        forall|t: u32| #[trigger] s.lists_last(n, t) ==> e.lists_last(n, t),
{
    lemma_root_rooted(s, n);
    assert(s.kept(e, n));
    let c = s.word(n, 4);
    if c != NULL {
        lemma_cache_rooted(s, n);
        assert(c != tn) by {
            lemma_core(s);
        }
        assert(s.kept(e, c));
        assert(e.svec_seq(c) =~= s.svec_seq(c));
    }
}

/// A new object of a type that is listed under its name.
proof fn lemma_of_listed(s: State, n: u32, t: u32, size: int)
    requires
        s.in_order(),
        s.fit_name(n),
        s.lists_last(n, t),
        t != NULL,
        s.tag(t) == s.builtin(id::DATATYPE),
        0 <= size,
    ensures
        ({
            let (e, v) = s.alloc_object(t, size);
            &&& follows(s, e)
            &&& tables_stay(s, e)
            &&& e.syms == s.syms
            &&& e.layouts == s.layouts
            &&& s.region.top <= e.region.top
            &&& s.kept(e, t)
            &&& e.good(t)
            &&& v != NULL ==> {
                &&& loose(e, v)
                &&& e.tag(v) == t
                &&& e.data(v) == crate::bytes::zeros(size as nat)
                &&& !e.reaches(t, v)
                &&& !e.reaches(NULL, v)
            }
            &&& forall|r: u32| #[trigger]
                s.root_list().contains(r) ==> e.good(r) && (v != NULL ==> !e.reaches(r, v))
        }),
{
    lemma_entered(s, n, t);
    lemma_beside(s, t, size);
    let (e, v) = s.alloc_object(t, size);
    lemma_rooted_kept(s, e, t);
    lemma_root_rooted(s, n);
    lemma_root_follows(s, e, n);
    assert(s.obj(t) is Some) by {
        lemma_reaches_ends(s, n, t);
    }
    assert(s.has_slot(t));
    assert(e.reaches(n, t)) by {
        lemma_still_reaches(s, e, n, t);
    }
    lemma_top(e);
    lemma_good_closed(e, n, t);
    if v != NULL && e.reaches(t, v) {
        crate::health::lemma_reaches_trans(e, n, t, v);
    }
}

/// What a root reaches it goes on to reach.
proof fn lemma_still_reaches(s: State, e: State, r: u32, u: u32)
    requires
        s.in_order(),
        follows(s, e),
        s.root_list().contains(r),
        s.reaches(r, u),
    ensures
        e.reaches(r, u),
{
    reveal(State::in_order);
    reveal(carried);
    crate::slots::lemma_empty_places(s, 0, 0);
    crate::slots::lemma_empty_places(e, 0, 0);
    lemma_reaches_ends(s, r, u);
    crate::health::lemma_kept_good(s, e, r);
}

/// Filling in an empty buffer.
#[verifier::rlimit(40)]
proof fn lemma_fill_buffer(b: State, mt: u32, m: u32, w: u32)
    requires
        b.in_order(),
        loose(b, m),
        b.tag(m) == mt,
        b.data(m) == crate::bytes::zeros(crate::memory::DATA as nat),
        b.tag(mt) == b.builtin(id::DATATYPE),
        b.name_of(mt) == b.shared_name(3),
        mt != b.builtin(id::DATATYPE) && mt != b.builtin(id::SVEC),
        b.good(mt) && !b.reaches(mt, m),
    ensures
        ({
            let e = b.with_word(m, 0, 0).with_word(m, 4, w);
            &&& follows(b, e)
            &&& loose(e, m)
            &&& e.good(m)
            &&& e == (State { objs: e.objs, ..b })
            &&& e.root_list() == b.root_list()
            &&& forall|x: u32| #[trigger]
                b.good(x) && !b.reaches(x, m) ==> e.good(x) && !e.reaches(x, m)
        }),
{
    let a = b.with_word(m, 0, 0);
    let e = a.with_word(m, 4, w);
    lemma_core(b);
    lemma_top(b);
    crate::health::lemma_word_only_at(b, m, 0, 0);
    crate::health::lemma_word_only_at(a, m, 4, w);
    crate::health::lemma_only_at_trans(b, a, e, m);
    crate::bytes::lemma_word_read_write(b.data(m), 0, 0);
    crate::bytes::lemma_word_read_other(a.data(m), 4, 0, w);
    assert(e.word(m, 0) == 0);
    assert(mt != m) by {
        assert(b.tag(m) != b.builtin(id::DATATYPE));
    }
    assert(e.obj(mt) == b.obj(mt));
    assert(e.refs_of(m) =~= seq![mt]) by {
        reveal(State::refs_of);
    }
    lemma_fill_local(b, e, m);
}

/// Whether the types of a module's table were listed under their names.
pub open spec fn table_listed(s: State) -> bool {
    let any = s.builtin(id::ANY);
    let (a, t) = s.push_root(any).array_type(any);
    let (b, mt) = a.push_root(any).memory_type(any);
    &&& any != NULL && t != NULL && mt != NULL
    &&& a.word(s.shared_name(4), 4) != NULL
    &&& b.word(s.shared_name(3), 4) != NULL
}

/// The first buffer of references.
proof fn lemma_empty_buffer(s: State)
    requires
        s.in_order(),
        s.fit_name(s.shared_name(3)),
        s.word(s.shared_name(3), 4) == NULL,
        s.builtin(id::ANY) != NULL,
        ({
            let any = s.builtin(id::ANY);
            let (b, mt) = s.push_root(any).memory_type(any);
            mt != NULL && b.word(s.shared_name(3), 4) != NULL
        }),
    ensures
        ({
            let any = s.builtin(id::ANY);
            let (e, r) = s.mem_alloc(any, 0);
            &&& e.in_order()
            &&& tables_stay(s, e)
            &&& e.syms == s.syms
            &&& e.layouts == s.layouts
            &&& s.region.top <= e.region.top
            &&& forall|u: u32| #[trigger] s.rooted(u) && u != s.shared_name(3) ==> s.kept(e, u)
            &&& r matches Ok(m) ==> loose(e, m.0) && e.good(m.0) && m.0 != NULL
        }),
{
    reveal(State::mem_alloc);
    let any = s.builtin(id::ANY);
    let n = s.shared_name(3);
    lemma_core_good(s, id::ANY);
    let y = s.push_root(any);
    lemma_hold_one(s, any);
    lemma_root_follows(s, y, n);
    lemma_root_follows(s, y, any);
    assert(forall|u: u32| #[trigger] y.obj(u) == s.obj(u));
    assert(y.fit_name(n));
    lemma_top(y);
    let xs = seq![any];
    assert forall|i: int| 0 <= i < xs.len() implies y.good(#[trigger] xs[i]) by {}
    lemma_apply(y, n, any, xs, NULL, 0);
    let (b, mt) = y.memory_type(any);
    let d = crate::memory::DATA as int;
    assert(0 * y.elem_size(any) == 0);
    lemma_of_listed(b, n, mt, d);
    let (a, m) = b.alloc_object(mt, d);
    let z = a.pop_roots(1);
    lemma_drop(a, 1);
    assert(z.roots =~= s.roots);
    assert forall|u: u32| #[trigger] s.rooted(u) && u != n implies s.kept(z, u) by {
        lemma_rooted_kept(s, y, u);
        assert(y.kept(b, u));
        assert(b.rooted(u));
        lemma_rooted_kept(b, a, u);
    }
    let (e, r) = s.mem_alloc(any, 0);
    if m != NULL {
        lemma_core(b);
        assert(mt != b.builtin(id::DATATYPE) && mt != b.builtin(id::SVEC)) by {
            lemma_core(y);
            if y.root_list().contains(mt) {
                lemma_root_rooted(y, mt);
            }
        }
        lemma_fill_buffer(z, mt, m, crate::gc::past_header(m));
        assert forall|u: u32| #[trigger] s.rooted(u) && u != n implies s.kept(e, u) by {
            assert(s.kept(z, u));
            assert(u != m) by {
                lemma_rooted_kept(s, y, u);
                lemma_rooted_kept(b, a, u);
                if u == m {
                    crate::definitions::lemma_loose_unrooted(a, m);
                }
            }
            assert(e.obj(u) == z.obj(u));
        }
    }
}

/// Whether the layout of array types was placed and lists the buffer, if there is one.
pub open spec fn array_laid_out(s: State) -> bool {
    let l = s.array_layout();
    &&& l < s.region.top
    &&& l != NULL ==> s.layout_word(l, 0) == 1 && s.layout_word(l, 1) == 0
}

/// Filling in an array over a buffer.
#[verifier::rlimit(40)]
proof fn lemma_fill_table(b: State, t: u32, a: u32, m: u32)
    requires
        b.in_order(),
        array_laid_out(b),
        loose(b, a),
        b.tag(a) == t,
        b.data(a) == crate::bytes::zeros(12),
        b.tag(t) == b.builtin(id::DATATYPE),
        b.name_of(t) != b.shared_name(3),
        b.layout(t) == b.array_layout(),
        t != b.builtin(id::DATATYPE) && t != b.builtin(id::SVEC),
        b.good(t) && !b.reaches(t, a),
        b.good(m) && !b.reaches(m, a),
    ensures
        ({
            let e = b.with_word(a, 0, m).with_word(a, 4, 0).with_word(a, 8, 0);
            &&& follows(b, e)
            &&& loose(e, a)
            &&& e.good(a)
            &&& only_at(b, e, a)
        }),
{
    let c = b.with_word(a, 0, m);
    let d = c.with_word(a, 4, 0);
    let e = d.with_word(a, 8, 0);
    lemma_core(b);
    lemma_top(b);
    crate::health::lemma_word_only_at(b, a, 0, m);
    crate::health::lemma_word_only_at(c, a, 4, 0);
    crate::health::lemma_word_only_at(d, a, 8, 0);
    crate::health::lemma_only_at_trans(b, c, d, a);
    crate::health::lemma_only_at_trans(b, d, e, a);
    crate::bytes::lemma_word_read_write(b.data(a), 0, m);
    crate::bytes::lemma_word_read_other(c.data(a), 4, 0, 0);
    crate::bytes::lemma_word_read_other(d.data(a), 8, 0, 0);
    assert(e.word(a, 0) == m);
    assert(t != a);
    assert(e.obj(t) == b.obj(t));
    assert(forall|x: u32| #[trigger] e.refs_of(a).contains(x) ==> x == t || x == m) by {
        reveal(State::refs_of);
        assert forall|x: u32| #[trigger] e.refs_of(a).contains(x) implies x == t || x == m by {
            let k = choose|k: int| 0 <= k < e.refs_of(a).len() && e.refs_of(a)[k] == x;
            assert(e.layout_npointers(t) <= 1);
            if k > 0 {
                assert(k == 1);
                assert(e.layout_ptr_offset(t, 0) == 0);
            }
        }
    }
    lemma_fill_local(b, e, a);
}

/// Pushing a value keeps names as they are.
proof fn lemma_names_held(s: State, x: u32, n: u32)
    requires
        s.in_order(),
        s.good(x),
        s.fit_name(n),
    ensures
        s.push_root(x).fit_name(n),
        s.push_root(x).word(n, 4) == s.word(n, 4),
        forall|t: u32| #[trigger] s.lists_last(n, t) ==> s.push_root(x).lists_last(n, t),
        forall|u: u32| #[trigger] s.rooted(u) ==> s.push_root(x).rooted(u),
        forall|u: u32| #[trigger] s.push_root(x).obj(u) == s.obj(u),
{
    let e = s.push_root(x);
    lemma_hold_one(s, x);
    lemma_root_follows(s, e, n);
    assert(forall|u: u32| #[trigger] e.obj(u) == s.obj(u));
    let c = s.word(n, 4);
    assert(e.svec_seq(c) =~= s.svec_seq(c));
    assert forall|u: u32| #[trigger] s.rooted(u) implies e.rooted(u) by {
        lemma_rooted_kept(s, e, u);
    }
}

/// The first array of references.
#[verifier::rlimit(40)]
proof fn lemma_empty_table(s: State)
    requires
        s.in_order(),
        s.fit_name(s.shared_name(3)),
        s.word(s.shared_name(3), 4) == NULL,
        s.fit_name(s.shared_name(4)),
        s.word(s.shared_name(4), 4) == NULL,
        s.shared_name(3) != s.shared_name(4),
        array_laid_out(s),
        table_listed(s),
    ensures
        ({
            let (e, r) = s.arr_alloc(s.builtin(id::ANY), 0);
            &&& e.in_order()
            &&& tables_stay(s, e)
            &&& e.syms == s.syms
            &&& r matches Ok(a) ==> loose(e, a.0) && e.good(a.0) && a.0 != NULL
            &&& forall|k: u32| #[trigger]
                s.root_list().contains(k) && k != NULL && k != s.shared_name(3) && k
                    != s.shared_name(4) ==> s.kept(e, k)
        }),
{
    reveal(State::arr_alloc);
    let any = s.builtin(id::ANY);
    let n3 = s.shared_name(3);
    let n4 = s.shared_name(4);
    lemma_core_good(s, id::ANY);
    let x = s.push_root(any);
    lemma_hold_one(s, any);
    lemma_names_held(s, any, n3);
    lemma_names_held(s, any, n4);
    lemma_root_follows(s, x, any);
    let xs = seq![any];
    assert forall|i: int| 0 <= i < xs.len() implies x.good(#[trigger] xs[i]) by {}
    lemma_apply(x, n4, any, xs, x.array_layout(), 12);
    let (s1, t) = x.array_type(any);
    lemma_name_stays(x, s1, n3, n4);
    lemma_empty_buffer(s1);
    let (s2, r) = s1.mem_alloc(any, 0);
    lemma_entered(s1, n4, t);
    assert(s1.kept(s2, t)) by {
        assert(t != n3) by {
            lemma_core(s1);
        }
    }
    lemma_same_tables(s1, s2);
    lemma_name_stays(s1, s2, n4, n3);
    assert(t != s1.builtin(id::DATATYPE) && t != s1.builtin(id::SVEC)) by {
        lemma_core(x);
        if x.root_list().contains(t) {
            lemma_root_rooted(x, t);
        }
    }
    assert forall|k: u32| #[trigger]
        s.root_list().contains(k) && k != NULL && k != n3 && k != n4 implies s.kept(s2, k)
        && s2.root_list().contains(k) by {
        lemma_root_follows(s, x, k);
        lemma_root_rooted(x, k);
        lemma_root_rooted(s1, k);
        assert(x.kept(s1, k) && s1.kept(s2, k));
    }
    match r {
        Err(_) => {
            lemma_drop(s2, 1);
            assert(s2.pop_roots(1).roots =~= s.roots);
        },
        Ok(m) => {
            let w = s2.push_root(m.0);
            lemma_hold_one(s2, m.0);
            lemma_names_held(s2, m.0, n4);
            lemma_of_listed(w, n4, t, 12);
            let (s3, a) = w.alloc_object(t, 12);
            lemma_drop(s3, 2);
            let s4 = s3.pop_roots(2);
            assert(s4.roots =~= s.roots);
            let e = s.arr_alloc(any, 0).0;
            if a != NULL {
                assert(array_laid_out(s4));
                lemma_fill_table(s4, t, a, m.0);
            }
            assert forall|k: u32| #[trigger]
                s.root_list().contains(k) && k != NULL && k != n3 && k != n4 implies s.kept(e, k) by {
                lemma_root_follows(s2, w, k);
                lemma_root_follows(w, s3, k);
                if a != NULL {
                    assert(k != a) by {
                        lemma_root_rooted(s3, k);
                        crate::definitions::lemma_loose_unrooted(s3, a);
                    }
                    assert(e.obj(k) == s4.obj(k));
                }
            }
        },
    }
}

/// A module that is filled in is good, also where it is its own parent.
#[verifier::rlimit(40)]
proof fn lemma_fill_module(b: State, m: u32, name: u32, t: u32)
    requires
        b.in_order(),
        loose(b, m),
        b.tag(m) == b.builtin(id::MODULE),
        b.data(m) == crate::bytes::zeros(12),
        b.good(name) && !b.reaches(name, m),
        b.good(t) && !b.reaches(t, m),
        !b.reaches(b.builtin(id::MODULE), m),
    ensures
        ({
            let e = b.with_word(m, 0, name).with_word(m, 4, m).with_word(m, 8, t);
            &&& follows(b, e)
            &&& e.good(m)
            &&& only_at(b, e, m)
        }),
{
    let c = b.with_word(m, 0, name);
    let d = c.with_word(m, 4, m);
    let e = d.with_word(m, 8, t);
    lemma_core(b);
    lemma_top(b);
    lemma_core_good(b, id::MODULE);
    let mo = b.builtin(id::MODULE);
    crate::health::lemma_word_only_at(b, m, 0, name);
    crate::health::lemma_word_only_at(c, m, 4, m);
    crate::health::lemma_word_only_at(d, m, 8, t);
    crate::health::lemma_only_at_trans(b, c, d, m);
    crate::health::lemma_only_at_trans(b, d, e, m);
    crate::bytes::lemma_word_read_write(b.data(m), 0, name);
    crate::bytes::lemma_word_read_other(c.data(m), 4, 0, m);
    crate::bytes::lemma_word_read_other(d.data(m), 8, 0, t);
    crate::bytes::lemma_word_read_write(c.data(m), 4, m);
    crate::bytes::lemma_word_read_other(d.data(m), 8, 4, t);
    crate::bytes::lemma_word_read_write(d.data(m), 8, t);
    assert(mo != m);
    assert(e.obj(mo) == b.obj(mo));
    crate::writes::lemma_holds_same(b, e, mo, 3);
    crate::uniquing::lemma_plain_refs(e, m, 3);
    let refs = e.refs_of(m);
    assert(refs[1] == e.word(m, 4 * 0int) && refs[2] == e.word(m, 4 * 1int) && refs[3] == e.word(
        m,
        4 * 2int,
    ));
    assert forall|x: u32| #[trigger] refs.contains(x) && x != m implies b.good(x) && !b.reaches(
        x,
        m,
    ) by {
        let k = choose|k: int| 0 <= k < refs.len() && refs[k] == x;
        assert(k == 0 || k == 1 || k == 2 || k == 3);
    }
    lemma_fill_local(b, e, m);
}

/// The first module keeps a heap in order.
#[verifier::rlimit(40)]
pub proof fn lemma_first_module(s: State, name: u32)
    requires
        s.in_order(),
        s.good(name),
        s.fit_name(s.shared_name(3)),
        s.word(s.shared_name(3), 4) == NULL,
        s.fit_name(s.shared_name(4)),
        s.word(s.shared_name(4), 4) == NULL,
        s.shared_name(3) != s.shared_name(4),
        array_laid_out(s),
        table_listed(s.push_roots(seq![name, NULL])),
    ensures
        ({
            let (e, r) = s.new_module(name, NULL);
            &&& e.in_order()
            &&& tables_stay(s, e)
            &&& e.syms == s.syms
            &&& r matches Ok(m) ==> e.good(m.0)
            &&& forall|k: u32| #[trigger]
                s.root_list().contains(k) && k != NULL && k != s.shared_name(3) && k
                    != s.shared_name(4) ==> s.kept(e, k)
        }),
{
    reveal(State::new_module);
    let xs = seq![name, NULL];
    let p = s.push_roots(xs);
    assert forall|i: int| 0 <= i < xs.len() implies s.good(#[trigger] xs[i]) by {
        assert(i == 0 || i == 1);
    }
    lemma_hold(s, xs);
    assert(forall|u: u32| #[trigger] p.obj(u) == s.obj(u));
    lemma_root_follows(s, p, s.shared_name(3));
    lemma_root_follows(s, p, s.shared_name(4));
    assert(xs[0] == name && p.root_list().contains(xs[0]));
    lemma_empty_table(p);
    let (s1, r) = p.arr_alloc(s.builtin(id::ANY), 0);
    lemma_same_tables(p, s1);
    assert forall|k: u32| #[trigger]
        s.root_list().contains(k) && k != NULL && k != s.shared_name(3) && k != s.shared_name(
            4,
        ) implies s.kept(s1, k) && s1.root_list().contains(k) by {
        lemma_root_follows(s, p, k);
    }
    match r {
        Err(_) => {
            lemma_drop(s1, 2);
            assert(s1.pop_roots(2).roots =~= s.roots);
        },
        Ok(b) => {
            let w = s1.push_root(b.0);
            lemma_hold_one(s1, b.0);
            lemma_root_follows(s1, w, name);
            let mo = w.builtin(id::MODULE);
            lemma_core_good(w, id::MODULE);
            assert(mo % 4 == 0 && mo != NULL) by {
                lemma_core(w);
                assert(w.good(mo));
                assert(w.has_slot(mo));
            }
            lemma_beside(w, mo, 12);
            let (s2, m) = w.alloc_object(mo, 12);
            lemma_drop(s2, 3);
            let s3 = s2.pop_roots(3);
            assert(s3.roots =~= s.roots);
            if m != NULL {
                assert(s2.good(name) && !s2.reaches(name, m)) by {
                    if name != NULL {
                        assert(w.root_list().contains(name));
                    }
                }
                lemma_fill_module(s3, m, name, b.0);
            }
            let e = s.new_module(name, NULL).0;
            assert forall|k: u32| #[trigger]
                s.root_list().contains(k) && k != NULL && k != s.shared_name(3) && k
                    != s.shared_name(4) implies s.kept(e, k) by {
                lemma_root_follows(s1, w, k);
                lemma_root_follows(w, s2, k);
                if m != NULL {
                    assert(k != m) by {
                        lemma_root_rooted(s2, k);
                        crate::definitions::lemma_loose_unrooted(s2, m);
                    }
                    assert(e.obj(k) == s3.obj(k));
                }
            }
        },
    }
}

} // verus!
