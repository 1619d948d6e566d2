//! Equal instantiations are one object.

use vstd::prelude::*;
use crate::gc::PAGE_SIZE;
use crate::health::{
    law_alloc_keeps_rooted, lemma_builtin_is_root, lemma_fill_healthy, lemma_good_closed,
    lemma_is_root, lemma_kept_good, lemma_reaches_ends, lemma_reaches_ref, lemma_reaches_trans,
    lemma_root_kinds, lemma_roots_healthy, lemma_word_only_at, lemma_write_words, like, loose, only_at,
    only_roots, reach_kept, roots_kept, steady,
};
use crate::id;
use crate::region::NULL;
use crate::state::State;
use crate::survival::lemma_reaches_self;
use crate::types::{DataType, DT_SIZE};

verus! {

impl State {
    /// Whether instances of `t` hold references in their first `n` words alone.
    pub open spec fn holds_refs(self, t: u32, n: int) -> bool {
        &&& !self.is_memory_type(t)
        &&& self.layout_npointers(t) == n
        &&& forall|i: int| 0 <= i < n ==> #[trigger] self.layout_ptr_offset(t, i) == 4 * i
    }

    /// Whether the types of types, of names, of vectors, of symbols and of modules are
    /// there and describe their instances.
    pub open spec fn described(self) -> bool {
        let dt = self.builtin(id::DATATYPE);
        let tn = self.builtin(id::TYPENAME);
        let sv = self.builtin(id::SVEC);
        let sy = self.builtin(id::SYMBOL);
        let mo = self.builtin(id::MODULE);
        &&& dt != NULL && tn != NULL && sv != NULL && sy != NULL && mo != NULL
        &&& dt != tn && tn != sv && dt != sv
        &&& sy != dt && sy != sv && mo != dt && mo != sv
        &&& self.tag(dt) == dt && self.tag(tn) == dt && self.tag(sv) == dt && self.tag(sy) == dt
            && self.tag(mo) == dt
        &&& self.holds_refs(dt, 5)
        &&& self.holds_refs(tn, 3)
        &&& self.holds_refs(sy, 0)
        &&& self.holds_refs(mo, 3)
        &&& self.shared_name(3) != NULL
    }

    /// Whether `tn` is a name whose cache holds types with vectors of parameters.
    pub open spec fn cache_ok(self, tn: u32) -> bool {
        let cache = self.word(tn, 4);
        &&& self.tag(tn) == self.builtin(id::TYPENAME)
        &&& self.data(tn).len() >= 12
        &&& cache == NULL || self.tag(cache) == self.builtin(id::SVEC)
        &&& forall|i: int|
            0 <= i < self.svec_seq(cache).len() ==> {
                let c = #[trigger] self.svec_seq(cache)[i];
                &&& self.tag(c) == self.builtin(id::DATATYPE)
                &&& self.parameters(c) == NULL || self.tag(self.parameters(c)) == self.builtin(
                    id::SVEC,
                )
            }
    }
}

/// Whether the roots of `s` are roots of `e`, and what they reach is kept.
pub open spec fn base_kept(s: State, e: State) -> bool {
    &&& s.builtins == e.builtins
    &&& like(s, e)
    &&& forall|r: u32| #[trigger]
        s.root_list().contains(r) && r != NULL ==> e.root_list().contains(r) && reach_kept(s, e, r)
}

pub proof fn lemma_base_trans(s: State, a: State, e: State)
    requires
        s.healthy(),
        a.healthy(),
        base_kept(s, a),
        base_kept(a, e),
    ensures
        base_kept(s, e),
{
    crate::slots::lemma_empty_places(s, 0, 0);
    crate::slots::lemma_empty_places(a, 0, 0);
    assert forall|r: u32| #[trigger] s.root_list().contains(r) && r
        != NULL implies e.root_list().contains(r) && reach_kept(s, e, r) by {
        assert(a.root_list().contains(r));
        assert(s.good(r));
        assert forall|u: u32| #[trigger] s.reaches(r, u) implies s.kept(e, u) by {
            lemma_reaches_ends(s, r, u);
            lemma_kept_good(s, a, r);
            assert(a.reaches(r, u));
            assert(s.kept(a, u));
            assert(a.kept(e, u));
        }
    }
}

/// More or other values on the shadow stack change no object.
pub proof fn lemma_base_roots(s: State, e: State)
    requires
        only_roots(s, e),
        forall|r: u32| #[trigger] s.root_list().contains(r) ==> e.root_list().contains(r),
    ensures
        base_kept(s, e),
{
    assert(forall|u: u32| #[trigger] e.obj(u) == s.obj(u));
    assert forall|r: u32| #[trigger] s.root_list().contains(r) implies e.root_list().contains(r)
        && reach_kept(s, e, r) by {
        assert forall|u: u32| #[trigger] s.reaches(r, u) implies s.kept(e, u) by {
            lemma_reaches_ends(s, r, u);
        }
    }
}

pub proof fn lemma_base_of_kept(s: State, e: State)
    requires
        roots_kept(s, e),
        e.root_list() == s.root_list(),
        s.builtins == e.builtins,
        like(s, e),
    ensures
        base_kept(s, e),
{
    assert forall|r: u32| #[trigger] s.root_list().contains(r) implies e.root_list().contains(r)
        && reach_kept(s, e, r) by {
        assert forall|u: u32| #[trigger] s.reaches(r, u) implies s.kept(e, u) by {
            assert(s.rooted(u));
        }
    }
}

/// A root that is there is kept.
pub proof fn lemma_root_kept(s: State, e: State, r: u32)
    requires
        s.healthy(),
        base_kept(s, e),
        s.root_list().contains(r),
        r != NULL,
    ensures
        s.obj(r) is Some,
        s.kept(e, r),
{
    assert(s.good(r));
    lemma_reaches_self(s, r);
    assert(reach_kept(s, e, r));
}

/// The core types go on to describe their instances.
pub proof fn lemma_described_kept(s: State, e: State)
    requires
        s.healthy(),
        base_kept(s, e),
        s.described(),
    ensures
        e.described(),
{
    lemma_builtin_is_root(s, id::DATATYPE);
    lemma_builtin_is_root(s, id::TYPENAME);
    lemma_builtin_is_root(s, id::SVEC);
    let dt = s.builtin(id::DATATYPE);
    let tn = s.builtin(id::TYPENAME);
    lemma_root_kept(s, e, dt);
    lemma_root_kept(s, e, tn);
    lemma_root_kept(s, e, s.builtin(id::SVEC));
    lemma_builtin_is_root(s, id::SYMBOL);
    lemma_builtin_is_root(s, id::MODULE);
    lemma_root_kept(s, e, s.builtin(id::SYMBOL));
    lemma_root_kept(s, e, s.builtin(id::MODULE));
    lemma_core_placed(s);
    lemma_holds_refs_kept(s, e, dt, 5);
    lemma_holds_refs_kept(s, e, tn, 3);
    lemma_holds_refs_kept(s, e, s.builtin(id::SYMBOL), 0);
    lemma_holds_refs_kept(s, e, s.builtin(id::MODULE), 3);
}

/// The layouts of the core types were placed.
proof fn lemma_core_placed(s: State)
    requires
        s.healthy(),
        s.described(),
    ensures
        s.layout(s.builtin(id::DATATYPE)) < s.region.top,
        s.layout(s.builtin(id::TYPENAME)) < s.region.top,
        s.layout(s.builtin(id::SVEC)) < s.region.top,
        s.layout(s.builtin(id::SYMBOL)) < s.region.top,
        s.layout(s.builtin(id::MODULE)) < s.region.top,
{
    lemma_root_sound(s, id::SYMBOL);
    lemma_root_sound(s, id::MODULE);
    lemma_root_sound(s, id::DATATYPE);
    lemma_root_sound(s, id::TYPENAME);
    lemma_root_sound(s, id::SVEC);
}

proof fn lemma_root_sound(s: State, i: u32)
    requires
        s.healthy(),
        s.builtin(i) != NULL,
    ensures
        s.sound(s.builtin(i)),
{
    lemma_builtin_is_root(s, i);
    assert(s.good(s.builtin(i)));
    lemma_reaches_self(s, s.builtin(i));
}

pub proof fn lemma_holds_refs_kept(s: State, e: State, t: u32, n: int)
    requires
        like(s, e),
        s.layout(t) < s.region.top,
        s.kept(e, t),
        s.holds_refs(t, n),
    ensures
        e.holds_refs(t, n),
{
    assert(e.layout(t) == s.layout(t));
    assert forall|i: int| 0 <= i < n implies #[trigger] e.layout_ptr_offset(t, i) == 4 * i by {
        assert(s.layout_ptr_offset(t, i) == 4 * i);
    }
}

/// Pushing good values keeps a heap healthy, and they are roots.
pub proof fn lemma_push_healthy(s: State, xs: Seq<u32>)
    requires
        s.healthy(),
        forall|i: int| 0 <= i < xs.len() ==> s.good(#[trigger] xs[i]),
    ensures
        s.push_roots(xs).healthy(),
        base_kept(s, s.push_roots(xs)),
        forall|i: int| 0 <= i < xs.len() ==> s.push_roots(xs).root_list().contains(#[trigger] xs[i]),
        forall|x: u32| #[trigger] s.good(x) ==> s.push_roots(xs).good(x),
{
    let e = s.push_roots(xs);
    assert forall|i: int| 0 <= i < e.roots.len() implies s.good(#[trigger] e.roots[i]) by {
        if i < s.roots.len() {
            assert(e.roots[i] == s.roots[i]);
            lemma_is_root(s, i);
        } else {
            assert(e.roots[i] == xs[i - s.roots.len()]);
        }
    }
    lemma_roots_healthy(s, e);
    assert forall|i: int| 0 <= i < xs.len() implies e.root_list().contains(#[trigger] xs[i]) by {
        assert(e.roots[s.roots.len() + i] == xs[i]);
        lemma_is_root(e, s.roots.len() + i);
    }
    assert forall|r: u32| #[trigger] s.root_list().contains(r) implies e.root_list().contains(r) by {
        lemma_root_kinds(e, s, r);
        if s.roots.contains(r) {
            let i = choose|i: int| 0 <= i < s.roots.len() && s.roots[i] == r;
            assert(e.roots[i] == r);
            lemma_is_root(e, i);
        }
    }
    lemma_base_roots(s, e);
}

/// Releasing the values that were pushed onto `s` gives back its roots.
proof fn lemma_pop_healthy(s: State, b: State, n: int)
    requires
        s.healthy(),
        b.healthy(),
        0 <= n,
        b.roots.len() == s.roots.len() + n,
        b.roots.take(s.roots.len() as int) == s.roots,
        base_kept(s, b),
        b.pop_roots(n).root_list() == s.root_list(),
    ensures
        b.pop_roots(n).healthy(),
        base_kept(s, b.pop_roots(n)),
        forall|x: u32| #[trigger] b.good(x) ==> b.pop_roots(n).good(x),
        forall|x: u32, u: u32|
            b.good(x) ==> (#[trigger] b.pop_roots(n).reaches(x, u) <==> b.reaches(x, u)),
        forall|v: u32| #[trigger] loose(b, v) ==> loose(b.pop_roots(n), v),
        b.pop_roots(n).roots == s.roots,
{
    let e = b.pop_roots(n);
    assert(e.roots =~= s.roots);
    assert(only_roots(b, e));
    assert forall|i: int| 0 <= i < e.roots.len() implies b.good(#[trigger] e.roots[i]) by {
        assert(b.roots[i] == b.roots.take(s.roots.len() as int)[i]);
        lemma_is_root(b, i);
        assert(e.roots[i] == b.roots[i]);
    }
    lemma_roots_healthy(b, e);
    assert(forall|u: u32| #[trigger] e.obj(u) == b.obj(u));
    assert(like(s, e)) by {
        assert(forall|off: u32, k: int| #[trigger] e.layout_word(off, k) == b.layout_word(off, k));
    }
    assert forall|r: u32| #[trigger] s.root_list().contains(r) implies e.root_list().contains(r)
        && reach_kept(s, e, r) by {
        assert forall|u: u32| #[trigger] s.reaches(r, u) implies s.kept(e, u) by {
            assert(s.kept(b, u));
        }
    }
    assert forall|v: u32| #[trigger] loose(b, v) implies loose(e, v) by {
        if e.live(v) {
            let r = choose|r: u32|
                (e.root_list().contains(r) || e.is_marked(r)) && #[trigger] e.reaches(r, v);
            if e.root_list().contains(r) {
                assert(s.root_list().contains(r));
                assert(b.root_list().contains(r));
                assert(b.good(r));
            } else {
                assert(b.is_marked(r));
                assert(b.good(r));
            }
            assert(b.reaches(r, v));
            assert(b.live(v));
        }
    }
}

/// What an object reaches: itself, or what one of its references reaches.
pub proof fn lemma_reaches_by(s: State, a: u32, b: u32)
    requires
        s.reaches(a, b),
    ensures
        a == b || exists|r: u32| s.refs_of(a).contains(r) && #[trigger] s.reaches(r, b),
{
    let p = choose|path: Seq<u32>| #[trigger]
        s.leads(path) && path[0] == a && path.last() == b;
    if p.len() > 1 {
        let q = p.skip(1);
        assert(s.leads(q)) by {
            assert forall|k: int| 0 <= k < q.len() implies s.obj(#[trigger] q[k]) is Some by {
                assert(q[k] == p[k + 1]);
            }
            assert forall|k: int| 0 <= k < q.len() - 1 implies s.refs_of(#[trigger] q[k]).contains(
                q[k + 1],
            ) by {
                assert(q[k] == p[k + 1] && q[k + 1] == p[k + 1 + 1]);
                assert(s.refs_of(p[k + 1]).contains(p[k + 1 + 1]));
            }
        }
        assert(q[0] == p[1] && q.last() == b);
        assert(s.refs_of(p[0]).contains(p[0 + 1 as int]));
        assert(s.reaches(p[1], b));
    }
}

/// An object is good whose references are good and whose type alone is read for
/// them.
pub proof fn lemma_new_good(s: State, v: u32)
    requires
        s.obj(v) is Some,
        s.obj(NULL) is None,
        s.refs_of(v).contains(s.tag(v)),
        forall|r: u32| #[trigger] s.refs_of(v).contains(r) ==> s.good(r),
        forall|x: u32| #[trigger] s.reads(v, x) ==> x == v || x == s.tag(v),
        s.typed(v),
        s.tag(v) == s.builtin(id::DATATYPE) && s.parameters(v) != NULL ==> s.refs_of(v).contains(
            s.parameters(v),
        ),
    ensures
        s.good(v),
{
    assert(s.sound(v)) by {
        if s.tag(v) == s.builtin(id::DATATYPE) && s.parameters(v) != NULL {
            assert(s.good(s.parameters(v)));
            lemma_reaches_ref(s, v, s.parameters(v));
        }
        assert forall|k: int|
            #![trigger s.refs_of(v)[k]]
            0 <= k < s.refs_of(v).len() && s.refs_of(v)[k] != NULL implies s.obj(
            s.refs_of(v)[k],
        ) is Some by {
            assert(s.refs_of(v).contains(s.refs_of(v)[k]));
        }
        assert forall|x: u32| #[trigger] s.reads(v, x) && x != NULL implies s.reaches(v, x) by {
            if x == v {
                lemma_reaches_self(s, v);
            } else {
                assert(s.good(x));
                lemma_reaches_ref(s, v, x);
            }
        }
    }
    assert forall|u: u32| #[trigger] s.reaches(v, u) implies s.sound(u) by {
        lemma_reaches_by(s, v, u);
        if u != v {
            let r = choose|r: u32| s.refs_of(v).contains(r) && #[trigger] s.reaches(r, u);
            lemma_good_closed(s, r, u);
        }
    }
}

/// The roots of a state and of the same state with another shadow stack of the same
/// values.
proof fn lemma_same_root_list(s: State, e: State)
    requires
        e.roots == s.roots,
        e.builtins == s.builtins,
        e.syms == s.syms,
        e.methods == s.methods,
        e.functions == s.functions,
        e.structs == s.structs,
        e.exc == s.exc,
        e.main == s.main,
    ensures
        e.root_list() == s.root_list(),
{
    reveal(State::root_list);
}

/// Whether the state `e` follows `s` by allocations: the same shadow stack, and what
/// the roots reach is kept.
pub open spec fn grown(s: State, e: State) -> bool {
    &&& e.healthy()
    &&& e.described()
    &&& base_kept(s, e)
    &&& e.root_list() == s.root_list()
    &&& e == (State {
        objs: e.objs,
        region: e.region,
        pools: e.pools,
        pages: e.pages,
        free_pages: e.free_pages,
        remembered: e.remembered,
        stats: e.stats,
        ..s
    })
}

/// Allocating with good values pushed onto the shadow stack, which are released
/// after it.
#[verifier::rlimit(40)]
pub proof fn lemma_alloc_pushed(s: State, xs: Seq<u32>, t: u32, size: int)
    requires
        s.healthy(),
        s.described(),
        0 <= size,
        forall|i: int| 0 <= i < xs.len() ==> s.good(#[trigger] xs[i]),
    ensures
        ({
            let (b, v) = s.push_roots(xs).alloc_object(t, size);
            let e = b.pop_roots(xs.len() as int);
            &&& grown(s, e)
            &&& v != NULL ==> loose(e, v) && e.obj(v) == Some(
                crate::state::ObjV {
                    tag: (t - t % 4) as u32,
                    marked: false,
                    old: false,
                    data: crate::bytes::zeros(size as nat),
                },
            )
            &&& forall|i: int|
                #![trigger xs[i]]
                0 <= i < xs.len() ==> e.good(xs[i]) && (v != NULL ==> !e.reaches(xs[i], v))
                    && reach_kept(s, e, xs[i])
            &&& forall|r: u32| #[trigger]
                s.root_list().contains(r) ==> e.good(r) && (v != NULL ==> !e.reaches(r, v))
        }),
{
    let a = s.push_roots(xs);
    lemma_push_healthy(s, xs);
    let (b, v) = a.alloc_object(t, size);
    law_alloc_keeps_rooted(a, t, size);
    crate::object::law_alloc_object(a, t, size);
    crate::object::lemma_alloc_object_keeps(a, t, size);
    lemma_base_of_kept(a, b);
    lemma_base_trans(s, a, b);
    let n = xs.len() as int;
    let e = b.pop_roots(n);
    assert(b.roots.take(s.roots.len() as int) =~= s.roots);
    assert(e.roots =~= s.roots);
    lemma_same_root_list(s, e);
    lemma_pop_healthy(s, b, n);
    lemma_described_kept(s, e);
    assert(forall|u: u32| #[trigger] e.obj(u) == b.obj(u));
    assert(forall|u: u32| #[trigger] a.obj(u) == s.obj(u));
    assert forall|i: int| #![trigger xs[i]] 0 <= i < xs.len() implies e.good(xs[i]) && (v != NULL
        ==> !e.reaches(xs[i], v)) && reach_kept(s, e, xs[i]) by {
        let x = xs[i];
        assert(a.root_list().contains(x));
        assert(b.root_list().contains(x));
        assert(b.good(x));
        assert(s.good(x));
        crate::slots::lemma_empty_places(s, 0, 0);
        assert forall|u: u32| #[trigger] s.reaches(x, u) implies s.kept(e, u) by {
            crate::health::lemma_same_good(s, a, x);
            assert(a.reaches(x, u));
            assert(a.rooted(u));
            assert(a.kept(b, u));
            lemma_reaches_ends(s, x, u);
        }
    }
    assert forall|r: u32| #[trigger] s.root_list().contains(r) implies e.good(r) && (v != NULL
        ==> !e.reaches(r, v)) by {
        if r != NULL {
            assert(a.root_list().contains(r));
            assert(b.root_list().contains(r));
            assert(b.good(r));
        } else if e.reaches(r, v) {
            crate::slots::lemma_empty_places(e, 0, 0);
            lemma_reaches_ends(e, r, v);
        }
    }
}

pub proof fn lemma_writes_nowhere(s: State, v: u32, base: int, ws: Seq<u32>, k: int)
    requires
        s.obj(v) is None,
    ensures
        s.write_words(v, base, ws, k) == s,
    decreases ws.len() - k,
{
    if !(k < 0 || k >= ws.len()) {
        lemma_writes_nowhere(s, v, base, ws, k + 1);
    }
}

/// A core type is a multiple of four, so that a tag holds it whole.
pub proof fn lemma_core_tag(s: State, i: u32)
    requires
        s.healthy(),
        s.builtin(i) != NULL,
    ensures
        s.builtin(i) % 4 == 0,
        s.good(s.builtin(i)),
        s.obj(s.builtin(i)) is Some,
{
    lemma_builtin_is_root(s, i);
    let t = s.builtin(i);
    assert(s.good(t));
    assert(s.has_slot(t));
}

/// A vector of good values is good, loose, and holds them.
pub proof fn lemma_make_svec(s: State, elems: Seq<u32>)
    requires
        s.healthy(),
        s.described(),
        forall|i: int| 0 <= i < elems.len() ==> s.good(#[trigger] elems[i]),
    ensures
        ({
            let (e, v) = s.make_svec(elems);
            &&& grown(s, e)
            &&& v != NULL ==> {
                &&& loose(e, v)
                &&& e.good(v)
                &&& e.tag(v) == e.builtin(id::SVEC)
                &&& e.svec_seq(v) == elems
                &&& forall|r: u32| #[trigger] s.root_list().contains(r) ==> !e.reaches(r, v)
                &&& forall|i: int|
                    #![trigger elems[i]]
                    0 <= i < elems.len() ==> reach_kept(s, e, elems[i])
            }
        }),
{
    reveal(State::make_svec);
    if elems.len() > PAGE_SIZE {
        lemma_grown_refl(s);
    } else {
        let n = elems.len() as int;
        let sv = s.builtin(id::SVEC);
        let size = 4 + 4 * n;
        lemma_core_tag(s, id::SVEC);
        lemma_alloc_pushed(s, elems, sv, size);
        let (b, v) = s.push_roots(elems).alloc_object(sv, size);
        let c = b.pop_roots(n);
        let d = c.with_word(v, 0, n as u32);
        let e = d.write_words(v, 4, elems, 0);
        crate::slots::lemma_empty_places(c, 0, 0);
        if v == NULL {
            lemma_writes_nowhere(d, v, 4, elems, 0);
        } else {
            lemma_word_only_at(c, v, 0, n as u32);
            assert(d.data(v).len() == size);
            lemma_write_words(d, v, 4, elems, 0);
            crate::health::lemma_only_at_trans(c, d, e, v);
            lemma_fill_healthy(c, e, v);
            crate::slots::lemma_empty_places(e, 0, 0);
            lemma_base_of_kept(c, e);
            lemma_base_trans(s, c, e);
            lemma_described_kept(s, e);
            crate::bytes::lemma_word_read_write(c.data(v), 0, n as u32);
            assert(e.word(v, 0) == n) by {
                assert(e.word(v, 0) == d.word(v, 0));
            }
            assert(e.svec_seq(v) =~= elems) by {
                assert forall|i: int| 0 <= i < n implies e.svec_ref(v, i) == elems[i] by {
                    assert(e.word(v, 4 + 4 * i) == elems[i]);
                }
            }
            assert(e.tag(v) == sv);
            assert forall|i: int| #![trigger elems[i]] 0 <= i < n implies e.good(elems[i])
                && reach_kept(s, e, elems[i]) by {
                let x = elems[i];
                assert(c.good(x) && !c.reaches(x, v));
                assert forall|u: u32| #[trigger] s.reaches(x, u) implies s.kept(e, u) by {
                    assert(s.kept(c, u));
                    lemma_reaches_ends(s, x, u);
                    assert(x != NULL);
                    lemma_kept_good(s, c, x);
                    assert(c.reaches(x, u));
                    assert(u != v);
                    assert(e.obj(u) == c.obj(u));
                }
            }
            assert forall|r: u32| #[trigger] s.root_list().contains(r) implies !e.reaches(r, v) by {
                assert(c.good(r) && !c.reaches(r, v));
            }
            lemma_builtin_is_root(s, id::SVEC);
            assert(c.good(sv) && !c.reaches(sv, v));
            assert(e.good(sv));
            lemma_svec_refs(e, v, elems);
            assert forall|r: u32| #[trigger] e.refs_of(v).contains(r) implies e.good(r) by {
                let k = choose|k: int| 0 <= k < e.refs_of(v).len() && e.refs_of(v)[k] == r;
                if k > 0 {
                    assert(r == elems[k - 1]);
                }
            }
            assert(e.refs_of(v)[0] == sv);
            lemma_new_good(e, v);
        }
    }
}

pub proof fn lemma_svec_refs(s: State, v: u32, elems: Seq<u32>)
    requires
        s.tag(v) == s.builtin(id::SVEC),
        s.builtin(id::SVEC) != NULL,
        v != NULL,
        s.svec_seq(v) == elems,
    ensures
        s.refs_of(v) == seq![s.tag(v)] + elems,
        forall|x: u32| #[trigger] s.reads(v, x) ==> x == v || x == s.tag(v),
{
    reveal(State::refs_of);
    assert(s.refs_of(v) =~= seq![s.tag(v)] + elems);
}

proof fn lemma_grown_refl(s: State)
    requires
        s.healthy(),
        s.described(),
    ensures
        grown(s, s),
{
    assert forall|r: u32| #[trigger] s.root_list().contains(r) implies reach_kept(s, s, r) by {
        assert forall|u: u32| #[trigger] s.reaches(r, u) implies s.kept(s, u) by {
            lemma_reaches_ends(s, r, u);
        }
    }
}

// --- data types -------------------------------------------------------------

/// The words of a data type.
pub open spec fn dt_words(d: DataType) -> Seq<u32> {
    seq![
        d.name,
        d.super_,
        d.parameters,
        d.types,
        d.instance,
        d.layout,
        d.size,
        d.nfields,
        d.flags,
    ]
}

pub proof fn lemma_write_dt(s: State, t: u32, d: DataType)
    ensures
        s.write_dt(t, d) == s.write_words(t, 0, dt_words(d), 0),
{
    reveal_with_fuel(State::write_words, 10);
}

/// The references of an object whose type says that they are its first words.
pub proof fn lemma_plain_refs(s: State, v: u32, n: int)
    requires
        s.tag(v) != NULL,
        s.tag(v) != s.builtin(id::SVEC),
        s.holds_refs(s.tag(v), n),
        0 <= n,
    ensures
        s.refs_of(v) == seq![s.tag(v)] + Seq::new(n as nat, |i: int| s.word(v, 4 * i)),
        forall|x: u32| #[trigger] s.reads(v, x) ==> x == v || x == s.tag(v),
{
    reveal(State::refs_of);
    let t = s.tag(v);
    assert forall|i: int| 0 <= i < n implies s.word(v, s.layout_ptr_offset(t, i) as int) == s.word(
        v,
        4 * i,
    ) by {
        assert(s.layout_ptr_offset(t, i) == 4 * i);
    }
    assert(s.refs_of(v) =~= seq![t] + Seq::new(n as nat, |i: int| s.word(v, 4 * i)));
}

/// A new data type over good values, before it is cached: it is good, and holds its
/// fields.
#[verifier::rlimit(100)]
#[verifier::spinoff_prover]
pub proof fn lemma_new_type(s: State, tn: u32, super_: u32, params: Seq<u32>, layout: u32, size: u32)
    requires
        s.healthy(),
        s.described(),
        s.root_list().contains(tn),
        s.root_list().contains(super_),
        forall|i: int| 0 <= i < params.len() ==> s.good(#[trigger] params[i]),
        s.make_svec(params).1 != NULL,
        layout < s.region.top,
    ensures
        ({
            let (s1, p) = s.make_svec(params);
            let (s2, t) = s1.push_root(p).alloc_object(s1.builtin(id::DATATYPE), DT_SIZE as int);
            let d = DataType {
                name: tn,
                super_,
                parameters: p,
                types: NULL,
                instance: NULL,
                layout,
                size,
                nfields: 0,
                flags: 0,
            };
            let e = s2.pop_roots(1).write_words(t, 0, dt_words(d), 0);
            &&& grown(s, e)
            &&& t != NULL ==> {
                &&& e.good(t)
                &&& e.obj(t) is Some
                &&& e.tag(t) == e.builtin(id::DATATYPE)
                &&& e.name_of(t) == tn
                &&& e.parameters(t) == p
                &&& e.svec_seq(p) == params
                &&& e.tag(p) == e.builtin(id::SVEC)
                &&& e.obj(p) is Some
                &&& e.reaches(t, p)
            }
        }),
{
    let (s1, p) = s.make_svec(params);
    lemma_make_svec(s, params);
    let dt = s1.builtin(id::DATATYPE);
    lemma_core_tag(s1, id::DATATYPE);
    let x = s1.push_root(p);
    assert(x =~= s1.push_roots(seq![p]));
    assert(seq![p][0] == p);
    lemma_alloc_pushed(s1, seq![p], dt, DT_SIZE as int);
    let (s2, t) = x.alloc_object(dt, DT_SIZE as int);
    let y = s2.pop_roots(1);
    let d = DataType {
        name: tn,
        super_,
        parameters: p,
        types: NULL,
        instance: NULL,
        layout,
        size,
        nfields: 0,
        flags: 0,
    };
    let e = y.write_words(t, 0, dt_words(d), 0);
    lemma_base_trans(s, s1, y);
    crate::slots::lemma_empty_places(y, 0, 0);
    crate::slots::lemma_empty_places(s1, 0, 0);
    if t == NULL {
        lemma_writes_nowhere(y, t, 0, dt_words(d), 0);
    } else {
        assert(seq![p][0] == p);
        assert(y.good(p) && !y.reaches(p, t));
        assert(s1.root_list().contains(tn) && s1.root_list().contains(super_));
        assert(y.good(tn) && !y.reaches(tn, t));
        assert(y.good(super_) && !y.reaches(super_, t));
        lemma_builtin_is_root(s1, id::DATATYPE);
        assert(y.good(dt) && !y.reaches(dt, t));
        lemma_write_words(y, t, 0, dt_words(d), 0);
        let ws = dt_words(d);
        lemma_reaches_self(s1, p);
        assert(s1.kept(y, p)) by {
            assert(reach_kept(s1, y, p));
        }
        assert forall|i: int| 0 <= i < 5 implies y.good(#[trigger] ws[i]) && !y.reaches(
            ws[i],
            t,
        ) by {
            if i >= 3 && y.reaches(ws[i], t) {
                lemma_reaches_ends(y, ws[i], t);
            }
        }
        lemma_fill_type(y, e, t, ws);
        lemma_base_of_kept(y, e);
        lemma_base_trans(s, y, e);
        // The vector of parameters is what it was.
        lemma_reaches_self(s1, p);
        assert(reach_kept(s1, y, p));
        assert(s1.kept(y, p));
        lemma_reaches_self(y, p);
        assert(p != t);
        assert(e.obj(p) == y.obj(p));
        assert(e.svec_seq(p) =~= s1.svec_seq(p));
    }
}

/// A new data type that holds good values is good.
#[verifier::rlimit(80)]
#[verifier::spinoff_prover]
pub proof fn lemma_fill_type(y: State, e: State, t: u32, ws: Seq<u32>)
    requires
        y.healthy(),
        y.described(),
        loose(y, t),
        only_at(y, e, t),
        e.tag(t) == y.builtin(id::DATATYPE),
        ws.len() == 9,
        forall|i: int| 0 <= i < 9 ==> e.word(t, 0 + 4 * i) == #[trigger] ws[i],
        forall|i: int| 0 <= i < 5 ==> y.good(#[trigger] ws[i]) && !y.reaches(ws[i], t),
        y.good(y.builtin(id::DATATYPE)) && !y.reaches(y.builtin(id::DATATYPE), t),
        ws[2] == NULL || y.tag(ws[2]) == y.builtin(id::SVEC),
        ws[5] < y.region.top,
    ensures
        e.healthy(),
        e.described(),
        roots_kept(y, e),
        steady(y, e),
        e.root_list() == y.root_list(),
        loose(e, t),
        e.good(t),
        e.obj(t) is Some,
        e.name_of(t) == ws[0],
        e.parameters(t) == ws[2],
        e.layout(t) == ws[5],
        ws[2] != NULL ==> e.reaches(t, ws[2]),
        e.refs_of(t) == seq![e.tag(t)] + ws.take(5),
        forall|i: int| 0 <= i < 5 ==> e.good(#[trigger] ws[i]) && !e.reaches(ws[i], t),
        !e.reaches(e.tag(t), t),
{
    lemma_fill_healthy(y, e, t);
    crate::slots::lemma_empty_places(e, 0, 0);
    lemma_base_of_kept(y, e);
    lemma_described_kept(y, e);
    lemma_plain_refs(e, t, 5);
    let refs = e.refs_of(t);
    assert(e.good(e.tag(t)));
    assert forall|i: int| 0 <= i < 5 implies e.good(#[trigger] ws[i]) && !e.reaches(ws[i], t) by {
        assert(y.good(ws[i]));
    }
    assert(refs =~= seq![e.tag(t)] + ws.take(5)) by {
        assert forall|k: int| 0 < k < 6 implies refs[k] == ws[k - 1] by {
            assert(refs[k] == e.word(t, 4 * (k - 1)));
            assert(e.word(t, 0 + 4 * (k - 1)) == ws[k - 1]);
        }
    }
    assert forall|r: u32| #[trigger] refs.contains(r) implies e.good(r) by {
        let k = choose|k: int| 0 <= k < refs.len() && refs[k] == r;
        if k > 0 {
            assert(r == ws[k - 1]);
        }
    }
    assert(refs[0] == e.tag(t));
    assert(e.word(t, 0 + 4 * 2int) == ws[2]);
    assert(e.word(t, 0 + 4 * 0int) == ws[0]);
    assert(e.word(t, 0 + 4 * 5int) == ws[5]);
    assert(refs[3] == ws[2]);
    assert(e.typed(t)) by {
        if ws[2] != NULL {
            lemma_reaches_self(y, ws[2]);
            assert(ws[2] != t);
            assert(e.obj(ws[2]) == y.obj(ws[2]));
        }
    }
    lemma_new_good(e, t);
    if ws[2] != NULL {
        lemma_reaches_ref(e, t, ws[2]);
    }
}

/// The values in the cache of a good name are good.
pub proof fn lemma_cache_good(s: State, tn: u32)
    requires
        s.healthy(),
        s.described(),
        s.good(tn),
        tn != NULL,
        s.cache_ok(tn),
    ensures
        forall|i: int|
            0 <= i < s.svec_seq(s.word(tn, 4)).len() ==> {
                let c = #[trigger] s.svec_seq(s.word(tn, 4))[i];
                &&& s.good(c)
                &&& s.reaches(tn, c)
                &&& s.parameters(c) != NULL ==> s.reaches(tn, s.parameters(c))
            },
{
    crate::slots::lemma_empty_places(s, 0, 0);
    let cache = s.word(tn, 4);
    lemma_reaches_self(s, tn);
    lemma_good_closed(s, tn, tn);
    if cache != NULL {
        lemma_plain_refs(s, tn, 3);
        assert(s.refs_of(tn)[2] == s.word(tn, 4 * 1int));
        assert(s.obj(cache) is Some);
        lemma_reaches_ref(s, tn, cache);
        lemma_good_closed(s, tn, cache);
        let elems = s.svec_seq(cache);
        lemma_svec_refs(s, cache, elems);
        assert forall|i: int| 0 <= i < elems.len() implies ({
            let c = #[trigger] elems[i];
            &&& s.good(c)
            &&& s.reaches(tn, c)
            &&& s.parameters(c) != NULL ==> s.reaches(tn, s.parameters(c))
        }) by {
            let c = elems[i];
            assert(s.refs_of(cache)[1 + i] == c);
            assert(s.tag(c) == s.builtin(id::DATATYPE));
            assert(c != NULL);
            assert(s.obj(c) is Some);
            lemma_reaches_ref(s, cache, c);
            lemma_reaches_trans(s, tn, cache, c);
            lemma_good_closed(s, tn, c);
            let q = s.parameters(c);
            if q != NULL {
                lemma_plain_refs(s, c, 5);
                assert(s.refs_of(c)[3] == s.word(c, 4 * 2int));
                assert(s.obj(q) is Some);
                lemma_reaches_ref(s, c, q);
                lemma_reaches_trans(s, tn, c, q);
            }
        }
    }
}

/// No type in a vector has the parameters, where none was found.
proof fn lemma_not_cached(s: State, cache: u32, params: Seq<u32>, i: int, j: int)
    requires
        s.cached_from(cache, params, i) == NULL,
        0 <= i <= j < s.svec_len(cache),
        s.svec_ref(cache, j) != NULL,
        s.obj(NULL) is None,
    ensures
        !(s.parameters(s.svec_ref(cache, j)) != NULL && s.svec_seq(
            s.parameters(s.svec_ref(cache, j)),
        ) == params),
    decreases j - i,
{
    if i < j {
        assert(s.parameters(NULL) == NULL);
        lemma_not_cached(s, cache, params, i + 1, j);
    }
}

/// The last type of a vector is found where no other has the parameters.
proof fn lemma_found_last(s: State, cache: u32, params: Seq<u32>, i: int)
    requires
        0 <= i < s.svec_len(cache),
        forall|j: int|
            0 <= j < s.svec_len(cache) - 1 ==> !(s.parameters(#[trigger] s.svec_ref(cache, j)) != NULL
                && s.svec_seq(s.parameters(s.svec_ref(cache, j))) == params),
        s.parameters(s.svec_ref(cache, s.svec_len(cache) - 1)) != NULL,
        s.svec_seq(s.parameters(s.svec_ref(cache, s.svec_len(cache) - 1))) == params,
    ensures
        s.cached_from(cache, params, i) == s.svec_ref(cache, s.svec_len(cache) - 1),
    decreases s.svec_len(cache) - i,
{
    if i < s.svec_len(cache) - 1 {
        assert(!(s.parameters(s.svec_ref(cache, i)) != NULL && s.svec_seq(
            s.parameters(s.svec_ref(cache, i)),
        ) == params));
        lemma_found_last(s, cache, params, i + 1);
    }
}

/// Equal instantiations are one object: instantiating a name again with the same
/// parameters gives the same type and changes nothing, as long as the heap held what
/// the first instantiation made.
#[verifier::rlimit(60)]
#[verifier::spinoff_prover]
pub proof fn law_instantiations_are_unique(
    s: State,
    tn: u32,
    super_: u32,
    params: Seq<u32>,
    layout: u32,
    size: u32,
)
    requires
        s.healthy(),
        s.described(),
        s.root_list().contains(tn),
        s.root_list().contains(super_),
        s.cache_ok(tn),
        forall|i: int| 0 <= i < params.len() ==> s.good(#[trigger] params[i]),
        s.make_svec(params).1 != NULL,
        layout < s.region.top,
        s.apply(tn, super_, params, layout, size).1 != NULL,
        s.apply(tn, super_, params, layout, size).0.word(tn, 4) != NULL,
    ensures
        ({
            let (e, t) = s.apply(tn, super_, params, layout, size);
            e.apply(tn, super_, params, layout, size) == (e, t)
        }),
{
    reveal(State::apply);
    if s.cache_lookup(tn, params) == NULL {
        reveal(State::cache_insert);
        let (s1, p) = s.make_svec(params);
        let (s2, t) = s1.push_root(p).alloc_object(s1.builtin(id::DATATYPE), DT_SIZE as int);
        let d = DataType {
            name: tn,
            super_,
            parameters: p,
            types: NULL,
            instance: NULL,
            layout,
            size,
            nfields: 0,
            flags: 0,
        };
        let s3 = s2.pop_roots(1).write_dt(t, d);
        let e = s3.cache_insert(tn, t);
        lemma_write_dt(s2.pop_roots(1), t, d);
        lemma_new_type(s, tn, super_, params, layout, size);
        lemma_insert(s, s3, tn, t, p, params);
        crate::slots::lemma_empty_places(s, 0, 0);
        let cache = e.word(tn, 4);
        let n = s.svec_seq(s.word(tn, 4)).len() as int;
        assert(e.svec_len(cache) == n + 1) by {
            assert(e.svec_seq(cache).len() == n + 1);
        }
        assert forall|j: int| 0 <= j < n implies !(e.parameters(#[trigger] e.svec_ref(cache, j))
            != NULL && e.svec_seq(e.parameters(e.svec_ref(cache, j))) == params) by {
            assert(e.svec_seq(cache)[j] == e.svec_ref(cache, j));
            assert(s.svec_seq(s.word(tn, 4))[j] == s.svec_ref(s.word(tn, 4), j));
            lemma_not_cached(s, s.word(tn, 4), params, 0, j);
        }
        assert(e.svec_ref(cache, n) == t) by {
            assert(e.svec_seq(cache)[n] == e.svec_ref(cache, n));
        }
        lemma_found_last(e, cache, params, 0);
    }
}

/// Caching a new type keeps the types that were cached, with their parameters.
#[verifier::rlimit(60)]
#[verifier::spinoff_prover]
proof fn lemma_insert(s: State, s3: State, tn: u32, t: u32, p: u32, params: Seq<u32>)
    requires
        s.healthy(),
        s.described(),
        s.root_list().contains(tn),
        s.cache_ok(tn),
        grown(s, s3),
        s3.good(t),
        s3.obj(t) is Some,
        s3.tag(t) == s3.builtin(id::DATATYPE),
        s3.parameters(t) == p,
        s3.svec_seq(p) == params,
        s3.obj(p) is Some,
        s3.tag(p) == s3.builtin(id::SVEC),
        s3.reaches(t, p),
        s3.cache_insert(tn, t).word(tn, 4) != NULL,
    ensures
        ({
            let e = s3.cache_insert(tn, t);
            let old_types = s.svec_seq(s.word(tn, 4));
            &&& e.svec_seq(e.word(tn, 4)) == old_types.push(t)
            &&& e.name_of(t) == s3.name_of(t)
            &&& e.parameters(t) == p
            &&& p != NULL
            &&& e.svec_seq(p) == params
            &&& forall|i: int|
                0 <= i < old_types.len() ==> {
                    let c = #[trigger] old_types[i];
                    &&& c != NULL
                    &&& e.name_of(c) == s.name_of(c)
                    &&& e.parameters(c) == s.parameters(c)
                    &&& e.parameters(c) != NULL ==> e.svec_seq(e.parameters(c)) == s.svec_seq(
                        s.parameters(c),
                    )
                }
        }),
{
    reveal(State::cache_insert);
    crate::slots::lemma_empty_places(s, 0, 0);
    crate::slots::lemma_empty_places(s3, 0, 0);
    assert(tn != NULL);
    assert(s.good(tn));
    lemma_cache_good(s, tn);
    lemma_root_kept(s, s3, tn);
    lemma_kept_good(s, s3, tn);
    let old_cache = s.word(tn, 4);
    let old_types = s.svec_seq(old_cache);
    assert(s3.word(tn, 4) == old_cache);
    if old_cache != NULL {
        lemma_plain_refs(s, tn, 3);
        lemma_reaches_self(s, tn);
        lemma_good_closed(s, tn, tn);
        assert(s.refs_of(tn)[2] == s.word(tn, 4 * 1int));
        lemma_reaches_ref(s, tn, old_cache);
        assert(s.kept(s3, old_cache));
    }
    assert(s3.svec_seq(old_cache) =~= old_types);
    let elems = old_types.push(t);
    let z = s3.push_root(t);
    assert(z =~= s3.push_roots(seq![t]));
    assert(seq![t][0] == t);
    lemma_push_healthy(s3, seq![t]);
    assert(z.described()) by {
        lemma_described_kept(s3, z);
    }
    assert forall|i: int| 0 <= i < elems.len() implies z.good(#[trigger] elems[i]) by {
        if i < old_types.len() {
            assert(elems[i] == old_types[i]);
            let c = old_types[i];
            assert(s3.reaches(tn, c));
            lemma_good_closed(s3, tn, c);
        }
        assert(s3.good(elems[i]));
    }
    lemma_make_svec(z, elems);
    let (w, v) = z.make_svec(elems);
    let q = w.pop_roots(1);
    let e = q.set_ref(tn, 4, v);
    assert(s3.cache_insert(tn, t) == e);
    assert(w.roots == z.roots);
    assert(forall|u: u32| #[trigger] q.obj(u) == w.obj(u));
    assert(z.root_list().contains(tn)) by {
        assert(s3.root_list().contains(tn));
    }
    lemma_root_kept(z, w, tn);
    assert(forall|u: u32| #[trigger] z.obj(u) == s3.obj(u));
    assert(q.data(tn) == s.data(tn));
    assert(e.word(tn, 4) == v) by {
        crate::object::law_get_ref_after_set_ref(q, tn, 4, v);
    }
    assert(v != NULL);
    // Every object but the name is what it was.
    assert forall|u: u32| u != tn implies #[trigger] e.data(u) == w.data(u) && e.tag(u) == w.tag(u) by {
        let b = q.write_barrier(tn, v);
        if b != q {
            crate::survival::lemma_with_bits(q, tn, true, false);
        }
        assert(b.data(u) == q.data(u) && b.tag(u) == q.tag(u));
        if b.has_slot(u) && b.has_slot(tn) {
            assert(u / 8 != tn / 8);
        }
    }
    let sv = s.builtin(id::SVEC);
    let dt = s.builtin(id::DATATYPE);
    assert(s.tag(tn) == s.builtin(id::TYPENAME));
    assert(w.tag(tn) == s.tag(tn));
    assert(v != tn);
    assert(e.svec_seq(v) =~= elems) by {
        assert(e.data(v) == w.data(v));
        assert(e.svec_seq(v) =~= w.svec_seq(v));
    }
    // The new type and its parameters.
    assert(elems[old_types.len() as int] == t);
    assert(reach_kept(z, w, t));
    lemma_reaches_self(z, t);
    assert(z.kept(w, t));
    crate::health::lemma_same_good(s3, z, t);
    assert(z.reaches(t, p));
    assert(z.kept(w, p));
    assert(t != tn && p != tn);
    assert(e.data(t) == s3.data(t) && e.data(p) == s3.data(p));
    assert(p != NULL);
    assert(e.svec_seq(p) =~= params) by {
        assert(e.svec_seq(p) =~= s3.svec_seq(p));
    }
    // The types that were cached.
    assert forall|i: int| 0 <= i < old_types.len() implies ({
        let c = #[trigger] old_types[i];
        &&& c != NULL
        &&& e.name_of(c) == s.name_of(c)
        &&& e.parameters(c) == s.parameters(c)
        &&& e.parameters(c) != NULL ==> e.svec_seq(e.parameters(c)) == s.svec_seq(s.parameters(c))
    }) by {
        let c = old_types[i];
        assert(s.tag(c) == dt);
        assert(s.kept(s3, c));
        assert(s3.reaches(tn, c));
        crate::health::lemma_same_good(s3, z, tn);
        assert(z.reaches(tn, c));
        assert(reach_kept(z, w, tn));
        assert(z.kept(w, c));
        assert(c != tn);
        assert(e.data(c) == s.data(c));
        let k = s.parameters(c);
        if k != NULL {
            assert(s.tag(k) == sv);
            assert(s.reaches(tn, k));
            assert(s.kept(s3, k));
            assert(s3.reaches(tn, k));
            assert(z.reaches(tn, k));
            assert(z.kept(w, k));
            assert(k != tn);
            assert(e.data(k) == s.data(k));
            assert(e.svec_seq(k) =~= s.svec_seq(k));
        }
    }
}

/// What the search of a vector finds has the parameters, and is in the vector.
proof fn lemma_found(s: State, cache: u32, params: Seq<u32>, i: int)
    requires
        0 <= i,
        s.cached_from(cache, params, i) != NULL,
        cache != NULL,
    ensures
        ({
            let t = s.cached_from(cache, params, i);
            &&& s.parameters(t) != NULL
            &&& s.svec_seq(s.parameters(t)) == params
            &&& exists|j: int| 0 <= j < s.svec_seq(cache).len() && s.svec_seq(cache)[j] == t
        }),
    decreases s.svec_len(cache) - i,
{
    if i < s.svec_len(cache) {
        let p = s.parameters(s.svec_ref(cache, i));
        if p != NULL && s.svec_seq(p) == params {
            assert(s.svec_seq(cache)[i] == s.svec_ref(cache, i));
        } else {
            lemma_found(s, cache, params, i + 1);
        }
    }
}

/// An instantiation has the name and holds exactly the parameters that it was made
/// with; it is in the name's cache; and the types that were in the cache keep their
/// parameters, so that a type of the name with other parameters is another type.
#[verifier::rlimit(60)]
#[verifier::spinoff_prover]
pub proof fn law_instantiation_holds_parameters(
    s: State,
    tn: u32,
    super_: u32,
    params: Seq<u32>,
    layout: u32,
    size: u32,
)
    requires
        s.healthy(),
        s.described(),
        s.root_list().contains(tn),
        s.root_list().contains(super_),
        s.cache_ok(tn),
        forall|i: int|
            0 <= i < s.svec_seq(s.word(tn, 4)).len() ==> s.name_of(
                #[trigger] s.svec_seq(s.word(tn, 4))[i],
            ) == tn,
        forall|i: int| 0 <= i < params.len() ==> s.good(#[trigger] params[i]),
        s.make_svec(params).1 != NULL,
        layout < s.region.top,
        s.apply(tn, super_, params, layout, size).1 != NULL,
        s.apply(tn, super_, params, layout, size).0.word(tn, 4) != NULL,
    ensures
        ({
            let (e, t) = s.apply(tn, super_, params, layout, size);
            let before = s.svec_seq(s.word(tn, 4));
            let after = e.svec_seq(e.word(tn, 4));
            &&& e.name_of(t) == tn
            &&& e.parameters(t) != NULL
            &&& e.svec_seq(e.parameters(t)) == params
            &&& after.contains(t)
            &&& forall|i: int|
                0 <= i < before.len() ==> {
                    let c = #[trigger] before[i];
                    &&& after.contains(c)
                    &&& e.name_of(c) == tn
                    &&& s.parameters(c) != NULL ==> {
                        &&& e.svec_seq(e.parameters(c)) == s.svec_seq(s.parameters(c))
                        &&& s.svec_seq(s.parameters(c)) != params ==> t != c
                    }
                }
        }),
{
    reveal(State::apply);
    let before = s.svec_seq(s.word(tn, 4));
    if s.cache_lookup(tn, params) == NULL {
        reveal(State::cache_insert);
        let (s1, p) = s.make_svec(params);
        let (s2, t) = s1.push_root(p).alloc_object(s1.builtin(id::DATATYPE), DT_SIZE as int);
        let d = DataType {
            name: tn,
            super_,
            parameters: p,
            types: NULL,
            instance: NULL,
            layout,
            size,
            nfields: 0,
            flags: 0,
        };
        let s3 = s2.pop_roots(1).write_dt(t, d);
        let e = s3.cache_insert(tn, t);
        lemma_write_dt(s2.pop_roots(1), t, d);
        lemma_new_type(s, tn, super_, params, layout, size);
        lemma_insert(s, s3, tn, t, p, params);
        let after = e.svec_seq(e.word(tn, 4));
        assert(after[before.len() as int] == t);
        assert forall|i: int| 0 <= i < before.len() implies after.contains(
            #[trigger] before[i],
        ) by {
            assert(after[i] == before[i]);
        }
    } else {
        lemma_found(s, s.word(tn, 4), params, 0);
    }
}

/// What the search of a vector finds depends on the vector, its types and their
/// parameters alone.
proof fn lemma_search_kept(s: State, e: State, cache: u32, params: Seq<u32>, i: int)
    requires
        0 <= i,
        cache != NULL,
        s.data(cache) == e.data(cache),
        forall|j: int|
            0 <= j < s.svec_seq(cache).len() ==> {
                let c = #[trigger] s.svec_seq(cache)[j];
                &&& s.data(c) == e.data(c)
                &&& s.data(s.parameters(c)) == e.data(s.parameters(c)) || s.parameters(c) == NULL
            },
    ensures
        s.cached_from(cache, params, i) == e.cached_from(cache, params, i),
    decreases s.svec_len(cache) - i,
{
    if i < s.svec_len(cache) {
        let c = s.svec_ref(cache, i);
        assert(s.svec_seq(cache)[i] == c);
        assert(e.svec_ref(cache, i) == c);
        let p = s.parameters(c);
        assert(e.parameters(c) == p);
        if p != NULL {
            assert(s.svec_seq(p) =~= e.svec_seq(p));
        }
        lemma_search_kept(s, e, cache, params, i + 1);
    }
}

/// Instantiations stay unique across a collection: the type that was made with some
/// parameters before it is the one that is found after it.
#[verifier::rlimit(40)]
#[verifier::spinoff_prover]
pub proof fn law_instantiations_survive(s: State, tn: u32, params: Seq<u32>, full: bool)
    requires
        s.healthy(),
        s.described(),
        s.root_list().contains(tn),
        s.cache_ok(tn),
    ensures
        s.collect(full).cache_lookup(tn, params) == s.cache_lookup(tn, params),
        s.cache_lookup(tn, params) != NULL ==> forall|super_: u32, layout: u32, size: u32|
            (#[trigger] s.collect(full).apply(tn, super_, params, layout, size)) == (
                s.collect(full),
                s.cache_lookup(tn, params),
            ),
{
    reveal(State::apply);
    let e = s.collect(full);
    crate::health::lemma_collect_healthy(s, full);
    crate::slots::lemma_empty_places(s, 0, 0);
    crate::slots::lemma_empty_places(e, 0, 0);
    assert(tn != NULL);
    assert(s.good(tn));
    lemma_cache_good(s, tn);
    lemma_reaches_self(s, tn);
    assert(s.rooted(tn));
    assert(s.kept(e, tn));
    let cache = s.word(tn, 4);
    if cache != NULL {
        lemma_plain_refs(s, tn, 3);
        lemma_good_closed(s, tn, tn);
        assert(s.refs_of(tn)[2] == s.word(tn, 4 * 1int));
        lemma_reaches_ref(s, tn, cache);
        assert(s.rooted(cache));
        assert(s.kept(e, cache));
        assert forall|j: int| 0 <= j < s.svec_seq(cache).len() implies ({
            let c = #[trigger] s.svec_seq(cache)[j];
            &&& s.data(c) == e.data(c)
            &&& s.data(s.parameters(c)) == e.data(s.parameters(c)) || s.parameters(c) == NULL
        }) by {
            let c = s.svec_seq(cache)[j];
            assert(s.reaches(tn, c));
            assert(s.rooted(c));
            assert(s.kept(e, c));
            if s.parameters(c) != NULL {
                assert(s.rooted(s.parameters(c)));
                assert(s.kept(e, s.parameters(c)));
            }
        }
        lemma_search_kept(s, e, cache, params, 0);
    }
}

} // verus!
