//! What a collection keeps and what it takes.
//!
//! The collector never moves an object. Everything that the roots reach keeps its
//! type and its payload; a full collection takes back every other slot.

use vstd::prelude::*;
use crate::gc::{past_header, pool_index, PageWalk, Sweep, PAGE_SIZE};
use crate::id;
use crate::region::{NULL, REGION_SIZE};
use crate::slots::{is_slot, on_page};
use crate::state::{ObjV, PageV, State};

verus! {

impl State {
    /// Whether both states hold the same objects, collector bits aside.
    pub open spec fn same_objects(self, other: State) -> bool {
        &&& self.builtins == other.builtins
        &&& self.layouts == other.layouts
        &&& self.objs.len() == other.objs.len()
        &&& forall|v: u32|
            #![trigger self.obj(v)]
            #![trigger other.obj(v)]
            #![trigger self.tag(v)]
            #![trigger other.tag(v)]
            #![trigger self.data(v)]
            #![trigger other.data(v)]
            (self.obj(v) is Some <==> other.obj(v) is Some) && self.tag(v) == other.tag(v)
                && self.data(v) == other.data(v)
    }

    /// Whether the object at `v` is in the state `after` what it is here, collector
    /// bits aside.
    pub open spec fn kept(self, after: State, v: u32) -> bool {
        after.obj(v) is Some && after.tag(v) == self.tag(v) && after.data(v) == self.data(v)
    }

    /// Whether every object referenced by `v` is marked in the state `after`.
    pub open spec fn refs_marked(self, v: u32, after: State) -> bool {
        forall|i: int|
            0 <= i < self.refs_of(v).len() && self.obj(#[trigger] self.refs_of(v)[i]) is Some
                ==> after.is_marked(self.refs_of(v)[i])
    }

    /// The collector's invariant: objects lie on their pages, which tell where marks
    /// are; what is remembered is marked; what is marked but young is remembered;
    /// and an object that is marked and not remembered references marked objects
    /// only.
    pub open spec fn heap_ok(self) -> bool {
        &&& self.slots_ok()
        &&& self.pages_tell()
        &&& forall|k: int|
            0 <= k < self.remembered.len() ==> self.is_marked(#[trigger] self.remembered[k])
        &&& forall|v: u32|
            #[trigger] self.is_marked(v) && !self.is_old(v) ==> self.remembered.contains(v)
        &&& forall|v: u32|
            #[trigger] self.is_marked(v) && !self.remembered.contains(v) ==> self.refs_marked(
                v,
                self,
            )
    }

    /// Whether `path` leads through references from one object to the next.
    pub open spec fn leads(self, path: Seq<u32>) -> bool {
        &&& path.len() > 0
        &&& forall|k: int| 0 <= k < path.len() ==> self.obj(#[trigger] path[k]) is Some
        &&& forall|k: int|
            0 <= k < path.len() - 1 ==> self.refs_of(#[trigger] path[k]).contains(path[k + 1])
    }
}

impl State {
    /// Whether references lead from `a` to `b`.
    pub open spec fn reaches(self, a: u32, b: u32) -> bool {
        exists|path: Seq<u32>| #[trigger]
            self.leads(path) && path[0] == a && path.last() == b
    }

    /// Whether references lead to `v` from a root or from a marked object.
    pub open spec fn live(self, v: u32) -> bool {
        exists|r: u32|
            (self.root_list().contains(r) || self.is_marked(r)) && #[trigger] self.reaches(r, v)
    }
}

// --- what the collector reads of a type -------------------------------------

impl State {
    /// Whether the object at `x` is read to tell whether instances of `t` are plain
    /// bits.
    pub open spec fn bits_read(self, t: u32, x: u32, fuel: nat) -> bool
        decreases fuel,
    {
        ||| x == t
        ||| {
            &&& fuel > 0
            &&& self.is_datatype(t)
            &&& !self.is_abstract(t)
            &&& !self.is_primitive(t)
            &&& self.is_tuple(t)
            &&& self.parameters(t) != NULL
            &&& (x == self.parameters(t) || exists|i: int|
                0 <= i < self.svec_len(self.parameters(t)) && self.bits_read(
                    #[trigger] self.svec_ref(self.parameters(t), i),
                    x,
                    (fuel - 1) as nat,
                ))
        }
    }

    /// Whether the object at `x` is read to find the references of the object at `v`.
    pub open spec fn reads(self, v: u32, x: u32) -> bool {
        let t = self.tag(v);
        ||| x == v
        ||| x == t
        ||| !self.is_svec(t) && self.is_memory_type(t) && (x == self.parameters(t)
            || self.bits_read(
            self.svec_ref(self.parameters(t), 0),
            x,
            crate::access::MAX_NESTING as nat,
        ))
    }

    /// Whether a marked object references, and is read by, nothing but objects and
    /// the null reference.
    pub open spec fn types_present(self) -> bool {
        &&& forall|v: u32, x: u32|
            #![trigger self.reads(v, x)]
            self.is_marked(v) && self.reads(v, x) && x != NULL ==> self.obj(x) is Some
        &&& forall|v: u32, k: int|
            #![trigger self.refs_of(v)[k]]
            self.is_marked(v) && 0 <= k < self.refs_of(v).len() && self.refs_of(v)[k] != NULL
                ==> self.obj(self.refs_of(v)[k]) is Some
    }

    /// Whether references lead from every live object to what is read to find its
    /// references: its type, and what belongs to that type.
    pub open spec fn types_reached(self) -> bool {
        forall|v: u32, x: u32|
            #![trigger self.reads(v, x)]
            self.live(v) && self.reads(v, x) && x != NULL ==> self.reaches(v, x)
    }
}

pub proof fn lemma_local_bits(s: State, e: State, t: u32, fuel: nat)
    requires
        same_kinds(s, e),
        forall|x: u32| #[trigger]
            s.bits_read(t, x, fuel) ==> s.tag(x) == e.tag(x) && s.data(x) == e.data(x),
    ensures
        s.is_bits(t, fuel) == e.is_bits(t, fuel),
    decreases fuel,
{
    assert(s.bits_read(t, t, fuel));
    if fuel > 0 && s.is_datatype(t) && !s.is_abstract(t) && !s.is_primitive(t) && s.is_tuple(t)
        && s.parameters(t) != NULL {
        let p = s.parameters(t);
        assert(s.bits_read(t, p, fuel));
        assert(e.parameters(t) == p);
        assert(s.svec_len(p) == e.svec_len(p));
        assert forall|i: int| 0 <= i < s.svec_len(p) implies s.is_bits(
            #[trigger] s.svec_ref(p, i),
            (fuel - 1) as nat,
        ) == e.is_bits(e.svec_ref(p, i), (fuel - 1) as nat) && s.svec_ref(p, i) == e.svec_ref(p, i) by {
            let c = s.svec_ref(p, i);
            assert forall|x: u32| #[trigger] s.bits_read(c, x, (fuel - 1) as nat) implies s.tag(x)
                == e.tag(x) && s.data(x) == e.data(x) by {
                assert(s.bits_read(t, x, fuel));
            }
            lemma_local_bits(s, e, c, (fuel - 1) as nat);
        }
        assert forall|i: int| 0 <= i < s.svec_len(p) implies s.svec_ref(p, i)
            == #[trigger] e.svec_ref(p, i) by {
            assert(s.svec_ref(p, i) == e.svec_ref(p, i));
        }
    }
}

/// Whether the core types by which references are found are the same in `e`.
pub open spec fn same_kinds(s: State, e: State) -> bool {
    &&& s.builtins is Some <==> e.builtins is Some
    &&& s.builtin(id::DATATYPE) == e.builtin(id::DATATYPE)
    &&& s.builtin(id::SVEC) == e.builtin(id::SVEC)
    &&& s.tuple_name() == e.tuple_name()
    &&& s.shared_name(3) == e.shared_name(3)
}

/// References are read alike where what is read for them is the same.
#[verifier::rlimit(60)]
#[verifier::spinoff_prover]
pub proof fn lemma_local_refs(s: State, e: State, v: u32)
    requires
        same_kinds(s, e),
        forall|k: int| #[trigger]
            e.layout_word(s.layout(s.tag(v)), k) == s.layout_word(s.layout(s.tag(v)), k),
        forall|x: u32| #[trigger]
            s.reads(v, x) ==> s.tag(x) == e.tag(x) && s.data(x) == e.data(x),
    ensures
        s.refs_of(v) == e.refs_of(v),
{
    reveal(State::refs_of);
    let t = s.tag(v);
    assert(s.reads(v, v));
    assert(s.reads(v, t));
    assert(s.is_memory_type(t) == e.is_memory_type(t));
    if !s.is_svec(t) && s.is_memory_type(t) {
        let p = s.parameters(t);
        assert(s.reads(v, p));
        let elem = s.svec_ref(p, 0);
        assert(e.svec_ref(p, 0) == elem);
        let n = crate::access::MAX_NESTING as nat;
        assert forall|x: u32| #[trigger] s.bits_read(elem, x, n) implies s.tag(x) == e.tag(x)
            && s.data(x) == e.data(x) by {
            assert(s.reads(v, x));
        }
        assert(s.bits_read(elem, elem, n));
        lemma_local_bits(s, e, elem, n);
        assert(s.element_refs(v) =~= e.element_refs(v));
    }
    assert(s.refs_of(v) =~= e.refs_of(v));
}

// --- marking ----------------------------------------------------------------

proof fn lemma_same_is_bits(s: State, e: State, t: u32, fuel: nat)
    requires
        s.same_objects(e),
    ensures
        s.is_bits(t, fuel) == e.is_bits(t, fuel),
    decreases fuel,
{
    if fuel > 0 {
        assert(s.tag(t) == e.tag(t));
        assert(s.data(t) == e.data(t));
        let p = s.parameters(t);
        assert(e.parameters(t) == p);
        assert(s.data(p) == e.data(p));
        assert forall|i: int| s.is_bits(#[trigger] s.svec_ref(p, i), (fuel - 1) as nat) == e.is_bits(
            e.svec_ref(p, i),
            (fuel - 1) as nat,
        ) by {
            assert(s.svec_ref(p, i) == e.svec_ref(p, i));
            lemma_same_is_bits(s, e, s.svec_ref(p, i), (fuel - 1) as nat);
        }
        assert forall|i: int| s.is_bits(s.svec_ref(p, i), (fuel - 1) as nat) == e.is_bits(
            #[trigger] e.svec_ref(p, i),
            (fuel - 1) as nat,
        ) by {
            assert(s.svec_ref(p, i) == e.svec_ref(p, i));
        }
    }
}

/// References are read alike where the objects are the same.
#[verifier::rlimit(60)]
#[verifier::spinoff_prover]
pub proof fn lemma_same_refs(s: State, e: State, v: u32)
    requires
        s.same_objects(e),
    ensures
        s.refs_of(v) == e.refs_of(v),
{
    reveal(State::refs_of);
    let t = s.tag(v);
    assert(e.tag(v) == t);
    assert(s.data(v) == e.data(v));
    assert(s.data(t) == e.data(t));
    assert(s.tag(t) == e.tag(t));
    let p = s.parameters(t);
    assert(s.data(p) == e.data(p));
    let elem = s.svec_ref(p, 0);
    assert(e.svec_ref(p, 0) == elem);
    assert(s.data(elem) == e.data(elem));
    assert(s.tag(elem) == e.tag(elem));
    lemma_same_is_bits(s, e, elem, crate::access::MAX_NESTING as nat);
    assert(s.refs_of(v) =~= e.refs_of(v));
}

proof fn lemma_same_trans(a: State, b: State, c: State)
    requires
        a.same_objects(b),
        b.same_objects(c),
    ensures
        a.same_objects(c),
{
    assert forall|v: u32|
        (#[trigger] a.obj(v) is Some <==> c.obj(v) is Some) && a.tag(v) == c.tag(v) && a.data(v)
            == c.data(v) by {
        assert(a.tag(v) == b.tag(v));
        assert(b.tag(v) == c.tag(v));
    }
}

pub proof fn lemma_with_bits(s: State, v: u32, marked: bool, old: bool)
    ensures
        s.same_objects(s.with_bits(v, marked, old)),
        forall|u: u32|
            #[trigger] s.with_bits(v, marked, old).is_marked(u) == if u == v && s.obj(v) is Some {
                marked
            } else {
                s.is_marked(u)
            },
        forall|u: u32|
            #[trigger] s.with_bits(v, marked, old).is_old(u) == if u == v && s.obj(v) is Some {
                old
            } else {
                s.is_old(u)
            },
        s.with_bits(v, marked, old).pages == s.pages,
        s.with_bits(v, marked, old).remembered == s.remembered,
{
    let e = s.with_bits(v, marked, old);
    assert forall|u: u32| #[trigger] e.obj(u) == if u == v && s.obj(v) is Some {
        Some(crate::state::ObjV { marked, old, ..s.obj(v)->Some_0 })
    } else {
        s.obj(u)
    } by {
        if s.obj(v) is Some && u != v && s.has_slot(u) {
            assert(u / 8 != v / 8);
        }
    }
}

proof fn lemma_mark_one_effect(s: State, v: u32)
    requires
        s.obj(v) is Some,
        s.pages_tell(),
    ensures
        s.same_objects(s.mark_one(v)),
        s.mark_one(v).pages_tell(),
        forall|u: u32| #[trigger] s.mark_one(v).is_marked(u) == (u == v || s.is_marked(u)),
        forall|u: u32| #[trigger] s.mark_one(v).is_old(u) == s.is_old(u),
{
    let was_old = s.is_old(v);
    let a = s.with_bits(v, true, was_old);
    lemma_with_bits(s, v, true, was_old);
    let h = if v >= 8 {
        (v - 8) as u32
    } else {
        0u32
    };
    let b = a.on_marked(v, was_old);
    let e = s.mark_one(v);
    assert(forall|u: u32| #[trigger] b.obj(u) == a.obj(u));
    assert(forall|u: u32| #[trigger] e.obj(u) == a.obj(u));
    assert(e.pages == b.pages);
    assert(a.same_objects(e));
    lemma_same_trans(s, a, e);
    assert(e.pages.len() == s.pages.len());
    assert forall|i: int| 0 <= i < e.pages.len() implies (#[trigger] e.pages[i]).start
        == s.pages[i].start && e.pages[i].in_use == s.pages[i].in_use && (s.pages[i].has_marked
        ==> e.pages[i].has_marked) by {}
    assert(crate::gc::pages_sorted(e.pages)) by {
        assert forall|i: int, j: int| 0 <= i < j < e.pages.len() implies #[trigger] e.pages[i].start
            + PAGE_SIZE <= #[trigger] e.pages[j].start by {
            assert(s.pages[i].start + PAGE_SIZE <= s.pages[j].start);
        }
    }
    assert forall|i: int, u: u32|
        #![trigger on_page(e.pages[i], u)]
        0 <= i < e.pages.len() && e.pages[i].in_use && on_page(e.pages[i], u) && e.is_marked(
            u,
        ) implies e.pages[i].has_marked by {
        if u == v {
            crate::gc::law_page_of(a.pages, h, i);
        } else {
            assert(on_page(s.pages[i], u));
        }
    }
}

/// Marking adds marks only, reaches everything on the work list, and everything
/// referenced by what it marked.
proof fn lemma_mark_loop(s: State, work: Seq<u32>)
    requires
        s.pages_tell(),
    ensures
        ({
            let e = s.mark_loop(work);
            &&& s.same_objects(e)
            &&& e.pages_tell()
            &&& forall|u: u32| s.is_marked(u) ==> #[trigger] e.is_marked(u)
            &&& forall|u: u32| #[trigger] e.is_old(u) == s.is_old(u)
            &&& forall|k: int|
                0 <= k < work.len() && e.obj(#[trigger] work[k]) is Some ==> e.is_marked(work[k])
            &&& forall|u: u32| #[trigger]
                e.is_marked(u) && !s.is_marked(u) ==> s.refs_marked(u, e)
        }),
    decreases crate::gc::unmarked(s.objs), work.len(),
{
    let e = s.mark_loop(work);
    if work.len() > 0 {
        let v = work.last();
        let rest = work.drop_last();
        if s.obj(v) is None || s.is_marked(v) {
            lemma_mark_loop(s, rest);
            assert forall|k: int|
                0 <= k < work.len() && e.obj(#[trigger] work[k]) is Some implies e.is_marked(
                work[k],
            ) by {
                if k < work.len() - 1 {
                    assert(rest[k] == work[k]);
                } else {
                    assert(s.obj(v) is Some <==> e.obj(v) is Some);
                }
            }
        } else {
            crate::gc::lemma_mark_one(s, v);
            lemma_mark_one_effect(s, v);
            let m = s.mark_one(v);
            let more = m.refs_of(v);
            lemma_same_refs(s, m, v);
            lemma_mark_loop(m, rest + more);
            lemma_same_trans(s, m, e);
            assert forall|k: int|
                0 <= k < work.len() && e.obj(#[trigger] work[k]) is Some implies e.is_marked(
                work[k],
            ) by {
                if k < work.len() - 1 {
                    assert((rest + more)[k] == work[k]);
                } else {
                    assert(m.is_marked(v));
                }
            }
            assert forall|u: u32| #[trigger] e.is_marked(u) && !s.is_marked(u) implies s.refs_marked(
                u,
                e,
            ) by {
                lemma_same_refs(s, m, u);
                assert forall|i: int|
                    0 <= i < s.refs_of(u).len() && s.obj(
                        #[trigger] s.refs_of(u)[i],
                    ) is Some implies e.is_marked(s.refs_of(u)[i]) by {
                    let r = s.refs_of(u)[i];
                    assert(s.obj(r) is Some <==> e.obj(r) is Some);
                    assert(s.obj(r) is Some <==> m.obj(r) is Some);
                    if u == v {
                        assert((rest + more)[rest.len() + i] == r);
                    } else {
                        assert(!m.is_marked(u));
                        assert(m.refs_of(u)[i] == r);
                    }
                }
            }
        }
    }
}

proof fn lemma_trace_remembered(s: State, rem: Seq<u32>, i: int, work: Seq<u32>)
    requires
        0 <= i <= rem.len(),
        s.pages_tell(),
        forall|k: int| 0 <= k < rem.len() && s.obj(#[trigger] rem[k]) is Some ==> s.is_marked(rem[k]),
    ensures
        ({
            let (e, w) = s.trace_remembered(rem, i, work);
            &&& s.same_objects(e)
            &&& e.pages == s.pages
            &&& e.pages_tell()
            &&& forall|u: u32| #[trigger] e.is_marked(u) == s.is_marked(u)
            &&& forall|k: int| 0 <= k < work.len() ==> w.contains(#[trigger] work[k])
            &&& forall|k: int, j: int|
                #![trigger s.refs_of(rem[k])[j]]
                i <= k < rem.len() && 0 <= j < s.refs_of(rem[k]).len() ==> w.contains(
                    s.refs_of(rem[k])[j],
                )
        }),
    decreases rem.len() - i,
{
    if i < rem.len() {
        let a = s.with_bits(rem[i], true, true);
        lemma_with_bits(s, rem[i], true, true);
        let b = if a.has_young_ref(rem[i]) {
            a.remember(rem[i])
        } else {
            a
        };
        assert(forall|u: u32| #[trigger] b.obj(u) == a.obj(u));
        assert(a.same_objects(b));
        lemma_same_trans(s, a, b);
        assert(forall|u: u32| #[trigger] b.is_marked(u) == s.is_marked(u));
        assert forall|k: int| 0 <= k < rem.len() && b.obj(#[trigger] rem[k]) is Some implies b.is_marked(
            rem[k],
        ) by {
            assert(s.obj(rem[k]) is Some <==> b.obj(rem[k]) is Some);
        }
        assert(b.pages_tell()) by {
            assert(b.pages == s.pages);
            assert forall|j: int, v: u32|
                #![trigger on_page(b.pages[j], v)]
                0 <= j < b.pages.len() && b.pages[j].in_use && on_page(b.pages[j], v) && b.is_marked(
                    v,
                ) implies b.pages[j].has_marked by {
                assert(on_page(s.pages[j], v));
            }
        }
        let more = work + a.refs_of(rem[i]);
        lemma_trace_remembered(b, rem, i + 1, more);
        let (e, w) = s.trace_remembered(rem, i, work);
        lemma_same_trans(s, b, e);
        lemma_same_refs(s, a, rem[i]);
        assert forall|k: int| 0 <= k < work.len() implies w.contains(#[trigger] work[k]) by {
            assert(more[k] == work[k]);
        }
        assert forall|k: int, j: int|
            #![trigger s.refs_of(rem[k])[j]]
            i <= k < rem.len() && 0 <= j < s.refs_of(rem[k]).len() implies w.contains(
            s.refs_of(rem[k])[j],
        ) by {
            if k == i {
                assert(more[work.len() + j] == s.refs_of(rem[k])[j]);
            } else {
                lemma_same_refs(s, b, rem[k]);
                assert(b.refs_of(rem[k])[j] == s.refs_of(rem[k])[j]);
            }
        }
    }
}

/// After marking, every root is marked and marked objects reference marked
/// objects only.
pub proof fn lemma_mark(s: State)
    requires
        s.heap_ok(),
    ensures
        ({
            let e = s.mark();
            &&& s.same_objects(e)
            &&& e.pages_tell()
            &&& forall|k: int|
                0 <= k < s.root_list().len() && s.obj(#[trigger] s.root_list()[k]) is Some
                    ==> e.is_marked(s.root_list()[k])
            &&& forall|u: u32| s.is_marked(u) ==> #[trigger] e.is_marked(u)
            &&& forall|u: u32| #[trigger] e.is_marked(u) ==> s.refs_marked(u, e)
        }),
{
    reveal(State::mark);
    let z = State { remembered: Seq::empty(), ..s };
    assert(forall|u: u32| #[trigger] z.obj(u) == s.obj(u));
    assert(s.same_objects(z));
    assert(z.pages_tell()) by {
        assert forall|j: int, v: u32|
            #![trigger on_page(z.pages[j], v)]
            0 <= j < z.pages.len() && z.pages[j].in_use && on_page(z.pages[j], v) && z.is_marked(
                v,
            ) implies z.pages[j].has_marked by {
            assert(on_page(s.pages[j], v));
        }
    }
    lemma_trace_remembered(z, s.remembered, 0, s.root_list());
    let (t, work) = z.trace_remembered(s.remembered, 0, s.root_list());
    lemma_mark_loop(t, work);
    let e = s.mark();
    lemma_same_trans(s, z, t);
    lemma_same_trans(s, t, e);
    assert(forall|u: u32| #[trigger] t.is_marked(u) == s.is_marked(u)) by {
        assert(forall|u: u32| #[trigger] z.is_marked(u) == s.is_marked(u));
    }
    assert forall|k: int|
        0 <= k < s.root_list().len() && s.obj(
            #[trigger] s.root_list()[k],
        ) is Some implies e.is_marked(s.root_list()[k]) by {
        let r = s.root_list()[k];
        assert(work.contains(r));
        let j = choose|j: int| 0 <= j < work.len() && work[j] == r;
        assert(e.obj(r) is Some);
        assert(e.obj(work[j]) is Some);
    }
    assert forall|u: u32| #[trigger] e.is_marked(u) implies s.refs_marked(u, e) by {
        lemma_same_refs(s, z, u);
        lemma_same_refs(s, t, u);
        if !t.is_marked(u) {
            assert(t.refs_marked(u, e));
            assert forall|i: int|
                0 <= i < s.refs_of(u).len() && s.obj(
                    #[trigger] s.refs_of(u)[i],
                ) is Some implies e.is_marked(s.refs_of(u)[i]) by {
                assert(t.refs_of(u)[i] == s.refs_of(u)[i]);
                assert(t.obj(s.refs_of(u)[i]) is Some);
            }
        } else if s.remembered.contains(u) {
            let k = choose|k: int| 0 <= k < s.remembered.len() && s.remembered[k] == u;
            assert forall|i: int|
                0 <= i < s.refs_of(u).len() && s.obj(
                    #[trigger] s.refs_of(u)[i],
                ) is Some implies e.is_marked(s.refs_of(u)[i]) by {
                let r = s.refs_of(u)[i];
                assert(z.refs_of(s.remembered[k])[i] == r);
                assert(work.contains(r));
                let j = choose|j: int| 0 <= j < work.len() && work[j] == r;
                assert(e.obj(work[j]) is Some);
            }
        } else {
            assert(s.is_marked(u));
            assert(s.refs_marked(u, s));
        }
    }
}

// --- sweeping ---------------------------------------------------------------

proof fn lemma_put_none(s: State, v: u32, u: u32)
    ensures
        u != v ==> s.put(v, None).obj(u) == s.obj(u),
        s.put(v, None).obj(v) is None,
        s.put(v, None).pages == s.pages,
{
    if s.has_slot(v) && s.has_slot(u) && u != v {
        assert(u / 8 != v / 8);
    }
}

/// The walk of a page leaves what lies elsewhere as it is, keeps marked objects,
/// and frees the other slots.
proof fn lemma_sweep_slots(
    s: State,
    start: u32,
    osize: u32,
    pos: int,
    full: bool,
    w: PageWalk,
    v: u32,
)
    requires
        start + PAGE_SIZE <= REGION_SIZE,
        0 <= pos,
    ensures
        ({
            let e = s.sweep_slots(start, osize, pos, full, w).0;
            &&& e.pages == s.pages
            &&& !(start + pos + 8 <= v < start + PAGE_SIZE + 8) ==> e.obj(v) == s.obj(v)
            &&& s.is_marked(v) ==> s.kept(e, v)
            &&& s.obj(v) is None ==> e.obj(v) is None
            &&& osize > 0 && !s.is_marked(v) && start + pos + 8 <= v && (v - 8 - start - pos) % (
            osize as int) == 0 && v - 8 - start + osize <= PAGE_SIZE ==> e.obj(v) is None
        }),
    decreases PAGE_SIZE - pos,
{
    if !(osize == 0 || pos < 0 || pos + osize > PAGE_SIZE) {
        let slot = (start + pos) as u32;
        let x = past_header(slot);
        assert(x == start + pos + 8);
        let s1 = if s.is_marked(x) {
            if !s.is_old(x) || full {
                s.with_bits(x, false, true)
            } else {
                s
            }
        } else {
            s.put(x, None)
        };
        let w1 = if s.is_marked(x) {
            if !s.is_old(x) {
                PageWalk {
                    live_n: crate::gc::inc32(w.live_n),
                    promoted: crate::gc::wrap64(w.promoted, osize as u64),
                    ..w
                }
            } else {
                PageWalk { live_n: crate::gc::inc32(w.live_n), ..w }
            }
        } else {
            PageWalk { free: w.free.push(slot), ..w }
        };
        assert(s.sweep_slots(start, osize, pos, full, w) == s1.sweep_slots(
            start,
            osize,
            pos + osize,
            full,
            w1,
        ));
        lemma_sweep_slots(s1, start, osize, pos + osize, full, w1, v);
        lemma_with_bits(s, x, false, true);
        lemma_put_none(s, x, v);
        if x != v {
            assert(s1.obj(v) == s.obj(v)) by {
                if s.has_slot(x) && s.has_slot(v) {
                    assert(x / 8 != v / 8);
                }
            }
            if osize > 0 && v >= start + pos + 8 && (v - 8 - start - pos) % (osize as int) == 0 {
                let d = v - 8 - start - pos;
                assert(d > 0);
                assert(d >= osize && (d - osize) % (osize as int) == 0) by {
                    if 0 < d < osize {
                        vstd::arithmetic::div_mod::lemma_small_mod(d as nat, osize as nat);
                    }
                    vstd::arithmetic::div_mod::lemma_mod_sub_multiples_vanish(d, osize as int);
                }
                assert(v - 8 - start - (pos + osize) == d - osize);
            }
        } else if s.is_marked(v) {
            assert(s.kept(s1, v));
        }
    }
}

/// Dropping the slots of a page leaves what lies elsewhere as it is.
proof fn lemma_drop_slots(s: State, start: u32, osize: u32, pos: int, v: u32)
    requires
        start + PAGE_SIZE <= REGION_SIZE,
        0 <= pos,
    ensures
        ({
            let e = s.drop_slots(start, osize, pos);
            &&& e.pages == s.pages
            &&& !(start + pos + 8 <= v < start + PAGE_SIZE + 8) ==> e.obj(v) == s.obj(v)
            &&& s.obj(v) is None ==> e.obj(v) is None
            &&& osize > 0 && start + pos + 8 <= v && (v - 8 - start - pos) % (osize as int) == 0
                && v - 8 - start + osize <= PAGE_SIZE ==> e.obj(v) is None
        }),
    decreases PAGE_SIZE - pos,
{
    if !(osize == 0 || pos < 0 || pos + osize > PAGE_SIZE) {
        let x = past_header((start + pos) as u32);
        assert(x == start + pos + 8);
        lemma_drop_slots(s.put(x, None), start, osize, pos + osize, v);
        lemma_put_none(s, x, v);
        if x != v && v >= start + pos + 8 && (v - 8 - start - pos) % (osize as int) == 0 {
            let d = v - 8 - start - pos;
            assert(d > 0);
            assert(d >= osize && (d - osize) % (osize as int) == 0) by {
                if 0 < d < osize {
                    vstd::arithmetic::div_mod::lemma_small_mod(d as nat, osize as nat);
                }
                vstd::arithmetic::div_mod::lemma_mod_sub_multiples_vanish(d, osize as int);
            }
            assert(v - 8 - start - (pos + osize) == d - osize);
        }
    }
}

/// What one page's turn in the sweep does to the offset `v` and to the pages.
proof fn lemma_sweep_page(s: State, idx: int, full: bool, v: u32)
    requires
        0 <= idx < s.pages.len(),
        s.pages[idx].start + PAGE_SIZE <= REGION_SIZE,
    ensures
        ({
            let e = s.release_page(idx);
            &&& e.pages.len() == s.pages.len()
            &&& forall|i: int| 0 <= i < s.pages.len() && i != idx ==> #[trigger] e.pages[i] == s.pages[i]
            &&& e.pages[idx].start == s.pages[idx].start
            &&& !on_page(s.pages[idx], v) ==> e.obj(v) == s.obj(v)
            &&& s.obj(v) is None ==> e.obj(v) is None
            &&& is_slot(s.pages[idx], v) ==> e.obj(v) is None
        }),
        ({
            let e = s.walk_page(idx, full).0;
            &&& e.pages.len() == s.pages.len()
            &&& forall|i: int| 0 <= i < s.pages.len() && i != idx ==> #[trigger] e.pages[i] == s.pages[i]
            &&& e.pages[idx].start == s.pages[idx].start
            &&& !on_page(s.pages[idx], v) ==> e.obj(v) == s.obj(v)
            &&& s.obj(v) is None ==> e.obj(v) is None
            &&& s.is_marked(v) ==> s.kept(e, v)
            &&& is_slot(s.pages[idx], v) && !s.is_marked(v) ==> e.obj(v) is None
        }),
{
    let pg = s.pages[idx];
    lemma_drop_slots(s, pg.start, pg.osize, 0, v);
    let r = s.drop_slots(pg.start, pg.osize, 0);
    assert(s.release_page(idx).obj(v) == r.obj(v));
    let w0 = PageWalk { free: Seq::empty(), live_n: 0, promoted: 0 };
    lemma_sweep_slots(s, pg.start, pg.osize, 0, full, w0, v);
    let t = s.sweep_slots(pg.start, pg.osize, 0, full, w0).0;
    assert(s.walk_page(idx, full).0.obj(v) == t.obj(v));
}

/// A sweep from the page `idx` on keeps the object at `v` if it is marked and the
/// pages that hold it say so, and leaves it alone if no page to come holds it; a
/// full sweep frees the slots to come that are not marked.
pub(crate) proof fn lemma_sweep_pages(s: State, idx: int, n: int, full: bool, acc: Sweep, v: u32)
    requires
        0 <= idx,
        n <= s.pages.len(),
        crate::gc::pages_sorted(s.pages),
        forall|i: int|
            0 <= i < s.pages.len() ==> (#[trigger] s.pages[i]).start + PAGE_SIZE <= REGION_SIZE,
    ensures
        ({
            let e = s.sweep_pages(idx, n, full, acc).0;
            &&& s.obj(v) is None ==> e.obj(v) is None
            &&& (forall|i: int|
                #![trigger s.pages[i]]
                idx <= i < n && s.pages[i].in_use ==> !on_page(s.pages[i], v)) ==> e.obj(v)
                == s.obj(v)
            &&& s.is_marked(v) && (forall|i: int|
                #![trigger s.pages[i]]
                idx <= i < n && s.pages[i].in_use && on_page(s.pages[i], v)
                    ==> s.pages[i].has_marked) ==> s.kept(e, v)
            &&& full && !s.is_marked(v) && (exists|i: int|
                #![trigger s.pages[i]]
                idx <= i < n && s.pages[i].in_use && is_slot(s.pages[i], v)) ==> e.obj(v) is None
        }),
    decreases n - idx,
{
    if !(idx >= n || idx >= s.pages.len()) {
        let pg = s.pages[idx];
        lemma_sweep_page(s, idx, full, v);
        let s1 = if !pg.in_use {
            s
        } else if !pg.has_marked {
            s.release_page(idx)
        } else if s.page_settled(pg, full) {
            s
        } else {
            s.walk_page(idx, full).0
        };
        let acc1 = if !pg.in_use || !pg.has_marked {
            acc
        } else if s.page_settled(pg, full) {
            Sweep {
                survivors: crate::gc::wrap64(acc.survivors, pg.live_n as u64),
                live_bytes: crate::gc::wrap64(
                    acc.live_bytes,
                    crate::gc::bytes_of(pg.live_n, pg.osize),
                ),
                ..acc
            }
        } else {
            let w = s.walk_page(idx, full).1;
            Sweep {
                survivors: crate::gc::wrap64(acc.survivors, w.live_n as u64),
                live_bytes: crate::gc::wrap64(
                    acc.live_bytes,
                    crate::gc::bytes_of(w.live_n, pg.osize),
                ),
                promoted: crate::gc::wrap64(acc.promoted, w.promoted),
                walked: crate::gc::wrap64(acc.walked, 1),
            }
        };
        assert(s.sweep_pages(idx, n, full, acc) == s1.sweep_pages(idx + 1, n, full, acc1));
        assert(s1.pages.len() == s.pages.len());
        assert(forall|i: int| 0 <= i < s.pages.len() && i != idx ==> #[trigger] s1.pages[i] == s.pages[i]);
        assert forall|i: int, j: int| 0 <= i < j < s1.pages.len() implies #[trigger] s1.pages[i].start
            + PAGE_SIZE <= #[trigger] s1.pages[j].start by {
            assert(s.pages[i].start + PAGE_SIZE <= s.pages[j].start);
        }
        assert forall|i: int|
            0 <= i < s1.pages.len() implies (#[trigger] s1.pages[i]).start + PAGE_SIZE <= REGION_SIZE by {
            assert(s.pages[i].start + PAGE_SIZE <= REGION_SIZE);
        }
        lemma_sweep_pages(s1, idx + 1, n, full, acc1, v);
        let e = s.sweep_pages(idx, n, full, acc).0;
        if on_page(pg, v) {
            assert forall|i: int|
                #![trigger s1.pages[i]]
                idx + 1 <= i < n && s1.pages[i].in_use implies !on_page(s1.pages[i], v) by {
                assert(s.pages[idx].start + PAGE_SIZE <= s.pages[i].start);
            }
            assert(e.obj(v) == s1.obj(v));
        } else {
            assert(s1.obj(v) == s.obj(v));
        }
        if full && !s.is_marked(v) && exists|i: int|
            #![trigger s.pages[i]]
            idx <= i < n && s.pages[i].in_use && is_slot(s.pages[i], v) {
            let i = choose|i: int|
                #![trigger s.pages[i]]
                idx <= i < n && s.pages[i].in_use && is_slot(s.pages[i], v);
            if i == idx {
                assert(on_page(pg, v));
                assert(e.obj(v) is None);
            } else {
                assert(s1.pages[i] == s.pages[i]);
                if on_page(pg, v) {
                    assert(s.pages[idx].start + PAGE_SIZE <= s.pages[i].start);
                }
            }
        }
    }
}

proof fn lemma_requeue(s: State, i: int)
    requires
        0 <= i,
    ensures
        s.same_objects(s.requeue(i)),
    decreases s.remembered.len() - i,
{
    if i < s.remembered.len() {
        lemma_with_bits(s, s.remembered[i], true, false);
        lemma_requeue(s.with_bits(s.remembered[i], true, false), i + 1);
        lemma_same_trans(s, s.with_bits(s.remembered[i], true, false), s.requeue(i));
    }
}

/// After the sweep a collection changes no object but for its collector bits.
proof fn lemma_after_sweep(s: State, full: bool)
    ensures
        s.mark().sweep(full).0.same_objects(s.collect(full)),
{
    reveal(State::collect);
    let (t, acc) = s.mark().sweep(full);
    if !full {
        lemma_requeue(t, 0);
    }
    let e = s.collect(full);
    let u = if full {
        State { remembered: Seq::empty(), ..t }
    } else {
        t.requeue(0)
    };
    assert(forall|v: u32| full ==> #[trigger] u.obj(v) == t.obj(v));
    assert(t.same_objects(u));
    assert(forall|v: u32| #[trigger] e.obj(v) == u.obj(v));
    assert(u.same_objects(e));
    lemma_same_trans(t, u, e);
}

pub proof fn lemma_path_marked(s: State, e: State, path: Seq<u32>, k: int)
    requires
        s.leads(path),
        0 <= k < path.len(),
        e.is_marked(path[0]),
        forall|u: u32| #[trigger] e.is_marked(u) ==> s.refs_marked(u, e),
    ensures
        e.is_marked(path[k]),
    decreases k,
{
    if k > 0 {
        lemma_path_marked(s, e, path, k - 1);
        let refs = s.refs_of(path[k - 1]);
        assert(refs.contains(path[k - 1 + 1]));
        let j = choose|j: int| 0 <= j < refs.len() && refs[j] == path[k];
        assert(s.obj(refs[j]) is Some);
    }
}

/// An object that the roots reach through references survives every collection:
/// it stays at its offset, with its type and its payload.
pub proof fn law_reachable_survives(s: State, full: bool, path: Seq<u32>)
    requires
        s.heap_ok(),
        s.leads(path),
        s.root_list().contains(path[0]),
    ensures
        s.kept(s.collect(full), path.last()),
{
    lemma_mark(s);
    let m = s.mark();
    let k = choose|k: int| 0 <= k < s.root_list().len() && s.root_list()[k] == path[0];
    assert(s.obj(s.root_list()[k]) is Some);
    lemma_path_marked(s, m, path, path.len() - 1);
    let v = path.last();
    reveal(State::sweep);
    let acc = Sweep { survivors: 0, live_bytes: 0, promoted: 0, walked: 0 };
    lemma_sweep_pages(m, 0, m.pages.len() as int, full, acc, v);
    let t = m.sweep(full).0;
    assert(t.obj(v) == m.sweep_pages(0, m.pages.len() as int, full, acc).0.obj(v));
    assert(m.kept(t, v));
    lemma_after_sweep(s, full);
    let e = s.collect(full);
    assert(e.tag(v) == t.tag(v));
    assert(m.tag(v) == s.tag(v));
}

// --- what is taken ----------------------------------------------------------

/// Marking reaches nothing but what references lead to from the work list.
proof fn lemma_mark_loop_only(s: State, work: Seq<u32>, u: u32)
    requires
        s.pages_tell(),
        s.mark_loop(work).is_marked(u),
        !s.is_marked(u),
    ensures
        exists|path: Seq<u32>| #[trigger]
            s.leads(path) && work.contains(path[0]) && path.last() == u,
    decreases crate::gc::unmarked(s.objs), work.len(),
{
    if work.len() > 0 {
        let v = work.last();
        let rest = work.drop_last();
        assert(work[work.len() - 1] == v);
        assert(forall|x: u32| #[trigger] rest.contains(x) ==> work.contains(x)) by {
            assert(forall|k: int| 0 <= k < rest.len() ==> rest[k] == work[k]);
        }
        if s.obj(v) is None || s.is_marked(v) {
            lemma_mark_loop_only(s, rest, u);
            let p = choose|path: Seq<u32>| #[trigger]
                s.leads(path) && rest.contains(path[0]) && path.last() == u;
            assert(s.leads(p) && work.contains(p[0]));
        } else {
            crate::gc::lemma_mark_one(s, v);
            lemma_mark_one_effect(s, v);
            let m = s.mark_one(v);
            let more = m.refs_of(v);
            lemma_same_refs(s, m, v);
            if u == v {
                let p = seq![v];
                assert(s.leads(p) && work.contains(p[0]) && p.last() == u);
            } else {
                lemma_mark_loop_only(m, rest + more, u);
                let p = choose|path: Seq<u32>| #[trigger]
                    m.leads(path) && (rest + more).contains(path[0]) && path.last() == u;
                assert(s.leads(p)) by {
                    assert forall|k: int| 0 <= k < p.len() implies s.obj(#[trigger] p[k]) is Some by {
                        assert(m.obj(p[k]) is Some);
                    }
                    assert forall|k: int| 0 <= k < p.len() - 1 implies s.refs_of(
                        #[trigger] p[k],
                    ).contains(p[k + 1]) by {
                        lemma_same_refs(s, m, p[k]);
                    }
                }
                let j = choose|j: int| 0 <= j < (rest + more).len() && (rest + more)[j] == p[0];
                if j < rest.len() {
                    assert(rest[j] == p[0]);
                    assert(rest.contains(p[0]));
                } else {
                    assert(s.refs_of(v)[j - rest.len()] == p[0]);
                    let q = seq![v] + p;
                    assert(s.leads(q)) by {
                        assert forall|k: int| 0 <= k < q.len() implies s.obj(
                            #[trigger] q[k],
                        ) is Some by {
                            if k > 0 {
                                assert(q[k] == p[k - 1]);
                            }
                        }
                        assert forall|k: int| 0 <= k < q.len() - 1 implies s.refs_of(
                            #[trigger] q[k],
                        ).contains(q[k + 1]) by {
                            assert(q[k + 1] == p[k]);
                            if k > 0 {
                                assert(q[k] == p[k - 1]);
                                assert(s.refs_of(p[k - 1]).contains(p[k - 1 + 1]));
                            }
                        }
                    }
                    assert(q[0] == v && q.last() == u);
                    assert(work.contains(q[0]));
                }
            }
        }
    }
}

proof fn lemma_trace_remembered_only(s: State, rem: Seq<u32>, i: int, work: Seq<u32>, x: u32)
    requires
        0 <= i <= rem.len(),
        s.trace_remembered(rem, i, work).1.contains(x),
    ensures
        work.contains(x) || exists|k: int|
            i <= k < rem.len() && s.refs_of(#[trigger] rem[k]).contains(x),
    decreases rem.len() - i,
{
    if i < rem.len() {
        let a = s.with_bits(rem[i], true, true);
        lemma_with_bits(s, rem[i], true, true);
        lemma_same_refs(s, a, rem[i]);
        let b = if a.has_young_ref(rem[i]) {
            a.remember(rem[i])
        } else {
            a
        };
        assert(forall|u: u32| #[trigger] b.obj(u) == a.obj(u));
        assert(a.same_objects(b));
        lemma_same_trans(s, a, b);
        let more = work + a.refs_of(rem[i]);
        lemma_trace_remembered_only(b, rem, i + 1, more, x);
        if more.contains(x) {
            let j = choose|j: int| 0 <= j < more.len() && more[j] == x;
            if j < work.len() {
                assert(work[j] == x);
            } else {
                assert(s.refs_of(rem[i])[j - work.len()] == x);
                assert(s.refs_of(rem[i]).contains(x));
            }
        } else {
            let k = choose|k: int| i + 1 <= k < rem.len() && b.refs_of(#[trigger] rem[k]).contains(x);
            lemma_same_refs(s, b, rem[k]);
            assert(s.refs_of(rem[k]).contains(x));
        }
    }
}

pub proof fn lemma_reaches_self(s: State, v: u32)
    requires
        s.obj(v) is Some,
    ensures
        s.reaches(v, v),
{
    let p = seq![v];
    assert(s.leads(p) && p[0] == v && p.last() == v);
}

/// Marking reaches live objects only.
pub proof fn lemma_marked_live(s: State, v: u32)
    requires
        s.heap_ok(),
        s.mark().is_marked(v),
    ensures
        s.live(v),
{
    reveal(State::mark);
    let z = State { remembered: Seq::empty(), ..s };
    assert(forall|u: u32| #[trigger] z.obj(u) == s.obj(u));
    assert(s.same_objects(z));
    crate::slots::lemma_same_tell(s, z);
    lemma_trace_remembered(z, s.remembered, 0, s.root_list());
    let (t, work) = z.trace_remembered(s.remembered, 0, s.root_list());
    lemma_same_trans(s, z, t);
    if t.is_marked(v) {
        assert(z.is_marked(v));
        assert(s.is_marked(v));
        lemma_reaches_self(s, v);
    } else {
        lemma_mark_loop_only(t, work, v);
        let p = choose|path: Seq<u32>| #[trigger]
            t.leads(path) && work.contains(path[0]) && path.last() == v;
        assert(s.leads(p)) by {
            assert forall|k: int| 0 <= k < p.len() implies s.obj(#[trigger] p[k]) is Some by {
                assert(t.obj(p[k]) is Some);
            }
            assert forall|k: int| 0 <= k < p.len() - 1 implies s.refs_of(#[trigger] p[k]).contains(
                p[k + 1],
            ) by {
                lemma_same_refs(s, t, p[k]);
            }
        }
        lemma_trace_remembered_only(z, s.remembered, 0, s.root_list(), p[0]);
        if s.root_list().contains(p[0]) {
            assert(s.reaches(p[0], v));
        } else {
            let k = choose|k: int|
                0 <= k < s.remembered.len() && z.refs_of(#[trigger] s.remembered[k]).contains(p[0]);
            lemma_same_refs(s, z, s.remembered[k]);
            let r = s.remembered[k];
            assert(s.is_marked(r));
            lemma_step_then(s, r, p);
            assert(s.reaches(r, v));
        }
    }
}

/// A path goes on from an object that references its first.
proof fn lemma_step_then(s: State, r: u32, p: Seq<u32>)
    requires
        s.obj(r) is Some,
        s.leads(p),
        s.refs_of(r).contains(p[0]),
    ensures
        s.leads(seq![r] + p),
        (seq![r] + p)[0] == r,
        (seq![r] + p).last() == p.last(),
{
    let q = seq![r] + p;
    assert forall|k: int| 0 <= k < q.len() implies s.obj(#[trigger] q[k]) is Some by {
        if k > 0 {
            assert(q[k] == p[k - 1]);
        }
    }
    assert forall|k: int| 0 <= k < q.len() - 1 implies s.refs_of(#[trigger] q[k]).contains(
        q[k + 1],
    ) by {
        assert(q[k + 1] == p[k]);
        if k > 0 {
            assert(q[k] == p[k - 1]);
            assert(s.refs_of(p[k - 1]).contains(p[k - 1 + 1]));
        }
    }
    assert(q.last() == p.last());
}

/// A full collection takes back the slot of every object that is not live: that
/// references lead to neither from a root nor from an object marked in an earlier
/// cycle.
pub proof fn law_garbage_is_reclaimed(s: State, i: int, v: u32)
    requires
        s.heap_ok(),
        s.holds(i, v),
        !s.live(v),
    ensures
        s.collect(true).obj(v) is None,
{
    let m = s.mark();
    lemma_mark(s);
    if m.is_marked(v) {
        lemma_marked_live(s, v);
    }
    assert(m.holds(i, v)) by {
        reveal(State::mark);
        let z = State { remembered: Seq::empty(), ..s };
        lemma_trace_frame(z, s.remembered, 0, s.root_list());
        let (t, work) = z.trace_remembered(s.remembered, 0, s.root_list());
        lemma_mark_pages(t, work);
    }
    reveal(State::sweep);
    let acc = Sweep { survivors: 0, live_bytes: 0, promoted: 0, walked: 0 };
    assert(m.pages[i].in_use && is_slot(m.pages[i], v));
    lemma_sweep_pages(m, 0, m.pages.len() as int, true, acc, v);
    let r = m.sweep(true).0;
    assert(r.obj(v) == m.sweep_pages(0, m.pages.len() as int, true, acc).0.obj(v));
    lemma_after_sweep(s, true);
    assert(s.collect(true).obj(v) is Some <==> r.obj(v) is Some);
}

/// What the walk of a page leaves in its slots is old, and what was old stays so.
proof fn lemma_slots_old(
    s: State,
    start: u32,
    osize: u32,
    pos: int,
    full: bool,
    w: PageWalk,
    v: u32,
)
    requires
        start + PAGE_SIZE <= REGION_SIZE,
        0 <= pos,
    ensures
        ({
            let e = s.sweep_slots(start, osize, pos, full, w).0;
            &&& s.is_old(v) && e.obj(v) is Some ==> e.is_old(v)
            &&& osize > 0 && start + pos + 8 <= v && (v - 8 - start - pos) % (osize as int) == 0 && v
                - 8 - start + osize <= PAGE_SIZE && e.obj(v) is Some ==> e.is_old(v)
        }),
    decreases PAGE_SIZE - pos,
{
    if !(osize == 0 || pos < 0 || pos + osize > PAGE_SIZE) {
        let slot = (start + pos) as u32;
        let x = past_header(slot);
        assert(x == start + pos + 8);
        let s1 = if s.is_marked(x) {
            if !s.is_old(x) || full {
                s.with_bits(x, false, true)
            } else {
                s
            }
        } else {
            s.put(x, None)
        };
        let w1 = if s.is_marked(x) {
            if !s.is_old(x) {
                PageWalk {
                    live_n: crate::gc::inc32(w.live_n),
                    promoted: crate::gc::wrap64(w.promoted, osize as u64),
                    ..w
                }
            } else {
                PageWalk { live_n: crate::gc::inc32(w.live_n), ..w }
            }
        } else {
            PageWalk { free: w.free.push(slot), ..w }
        };
        assert(s.sweep_slots(start, osize, pos, full, w) == s1.sweep_slots(
            start,
            osize,
            pos + osize,
            full,
            w1,
        ));
        lemma_slots_old(s1, start, osize, pos + osize, full, w1, v);
        lemma_sweep_slots(s1, start, osize, pos + osize, full, w1, v);
        lemma_with_bits(s, x, false, true);
        lemma_put_none(s, x, v);
        if x != v {
            assert(s1.obj(v) == s.obj(v)) by {
                if s.has_slot(x) && s.has_slot(v) {
                    assert(x / 8 != v / 8);
                }
            }
            if osize > 0 && v >= start + pos + 8 && (v - 8 - start - pos) % (osize as int) == 0 {
                let d = v - 8 - start - pos;
                assert(d >= osize && (d - osize) % (osize as int) == 0) by {
                    if 0 < d < osize {
                        vstd::arithmetic::div_mod::lemma_small_mod(d as nat, osize as nat);
                    }
                    vstd::arithmetic::div_mod::lemma_mod_sub_multiples_vanish(d, osize as int);
                }
                assert(v - 8 - start - (pos + osize) == d - osize);
            }
        } else {
            assert(s1.obj(v) is Some ==> s1.is_old(v));
        }
    }
}

/// What a sweep leaves in the slots of the pages to come that it walks is old: all
/// pages in a full sweep, those that tell of a young object in a quick one.
proof fn lemma_pages_old(s: State, idx: int, n: int, full: bool, acc: Sweep, v: u32)
    requires
        0 <= idx,
        n <= s.pages.len(),
        crate::gc::pages_sorted(s.pages),
        forall|i: int|
            0 <= i < s.pages.len() ==> (#[trigger] s.pages[i]).start + PAGE_SIZE <= REGION_SIZE,
    ensures
        ({
            let e = s.sweep_pages(idx, n, full, acc).0;
            &&& s.is_old(v) && e.obj(v) is Some ==> e.is_old(v)
            &&& (exists|i: int|
                #![trigger s.pages[i]]
                idx <= i < n && s.pages[i].in_use && is_slot(s.pages[i], v) && (full
                    || s.pages[i].has_young)) && e.obj(v) is Some ==> e.is_old(v)
        }),
    decreases n - idx,
{
    if !(idx >= n || idx >= s.pages.len()) {
        let pg = s.pages[idx];
        let w0 = PageWalk { free: Seq::empty(), live_n: 0, promoted: 0 };
        lemma_sweep_page(s, idx, full, v);
        lemma_slots_old(s, pg.start, pg.osize, 0, full, w0, v);
        lemma_drop_slots_same(s, pg.start, pg.osize, 0, v);
        let (a, w) = s.walk_page(idx, full);
        assert(a.obj(v) == s.sweep_slots(pg.start, pg.osize, 0, full, w0).0.obj(v));
        assert(s.release_page(idx).obj(v) == s.drop_slots(pg.start, pg.osize, 0).obj(v));
        let s1 = if !pg.in_use {
            s
        } else if !pg.has_marked {
            s.release_page(idx)
        } else if s.page_settled(pg, full) {
            s
        } else {
            a
        };
        let acc1 = if !pg.in_use || !pg.has_marked {
            acc
        } else if s.page_settled(pg, full) {
            Sweep {
                survivors: crate::gc::wrap64(acc.survivors, pg.live_n as u64),
                live_bytes: crate::gc::wrap64(
                    acc.live_bytes,
                    crate::gc::bytes_of(pg.live_n, pg.osize),
                ),
                ..acc
            }
        } else {
            Sweep {
                survivors: crate::gc::wrap64(acc.survivors, w.live_n as u64),
                live_bytes: crate::gc::wrap64(
                    acc.live_bytes,
                    crate::gc::bytes_of(w.live_n, pg.osize),
                ),
                promoted: crate::gc::wrap64(acc.promoted, w.promoted),
                walked: crate::gc::wrap64(acc.walked, 1),
            }
        };
        assert(s.sweep_pages(idx, n, full, acc) == s1.sweep_pages(idx + 1, n, full, acc1));
        assert forall|i: int, j: int| 0 <= i < j < s1.pages.len() implies #[trigger] s1.pages[i].start
            + PAGE_SIZE <= #[trigger] s1.pages[j].start by {
            assert(s.pages[i].start + PAGE_SIZE <= s.pages[j].start);
        }
        assert forall|i: int| 0 <= i < s1.pages.len() implies (#[trigger] s1.pages[i]).start
            + PAGE_SIZE <= REGION_SIZE by {
            assert(s.pages[i].start + PAGE_SIZE <= REGION_SIZE);
        }
        lemma_pages_old(s1, idx + 1, n, full, acc1, v);
        lemma_sweep_pages(s1, idx + 1, n, full, acc1, v);
        if exists|i: int|
            #![trigger s.pages[i]]
            idx <= i < n && s.pages[i].in_use && is_slot(s.pages[i], v) && (full
                || s.pages[i].has_young) {
            let i = choose|i: int|
                #![trigger s.pages[i]]
                idx <= i < n && s.pages[i].in_use && is_slot(s.pages[i], v) && (full
                    || s.pages[i].has_young);
            if i > idx {
                assert(s1.pages[i] == s.pages[i]);
            }
        }
    }
}

/// A collection promotes what survives it. After a full one every object is old; after
/// a quick one every live object is, except those that are remembered, which wait to
/// be scanned again.
pub proof fn law_survivors_are_promoted(s: State, full: bool, v: u32)
    requires
        s.heap_ok(),
        s.collect(full).obj(v) is Some,
        full || s.live(v),
    ensures
        s.collect(full).is_old(v) || (!full && s.collect(full).remembered.contains(v)),
{
    let m = s.mark();
    lemma_mark(s);
    lemma_mark_old(s);
    if !full {
        let r = choose|r: u32|
            (s.root_list().contains(r) || s.is_marked(r)) && #[trigger] s.reaches(r, v);
        let path = choose|path: Seq<u32>| #[trigger]
            s.leads(path) && path[0] == r && path.last() == v;
        assert(s.obj(path[0]) is Some);
        if s.root_list().contains(r) {
            let k = choose|k: int| 0 <= k < s.root_list().len() && s.root_list()[k] == path[0];
            assert(s.obj(s.root_list()[k]) is Some);
        }
        lemma_path_marked(s, m, path, path.len() - 1);
    }
    reveal(State::sweep);
    reveal(State::collect);
    let acc = Sweep { survivors: 0, live_bytes: 0, promoted: 0, walked: 0 };
    let n = m.pages.len() as int;
    let r = m.sweep(full).0;
    let p = m.sweep_pages(0, n, full, acc).0;
    let e = s.collect(full);
    lemma_after_sweep(s, full);
    assert(r.obj(v) == p.obj(v));
    lemma_sweep_pages(m, 0, n, full, acc, v);
    assert(m.obj(v) is Some);
    assert(s.obj(v) is Some);
    let i = choose|i: int| s.holds(i, v);
    assert(m.holds(i, v)) by {
        reveal(State::mark);
        let z = State { remembered: Seq::empty(), ..s };
        lemma_trace_frame(z, s.remembered, 0, s.root_list());
        let (t, work) = z.trace_remembered(s.remembered, 0, s.root_list());
        lemma_mark_pages(t, work);
    }
    assert(m.pages[i].in_use && is_slot(m.pages[i], v));
    lemma_pages_old(m, 0, n, full, acc, v);
    assert(p.is_old(v));
    if full {
        assert(e.obj(v) == r.obj(v));
    } else {
        lemma_requeue_bits(r, 0);
        let u = r.requeue(0);
        assert(e.obj(v) == u.obj(v));
        assert(e.remembered == r.remembered);
        if !e.remembered.contains(v) {
            assert(forall|k: int| 0 <= k < r.remembered.len() ==> #[trigger] r.remembered[k] != v);
            assert(u.obj(v) == r.obj(v));
        }
    }
}

/// Marking leaves the shape of the pages alone.
proof fn lemma_mark_pages(s: State, work: Seq<u32>)
    ensures
        ({
            let e = s.mark_loop(work);
            &&& e.pages.len() == s.pages.len()
            &&& forall|i: int|
                0 <= i < s.pages.len() ==> (#[trigger] e.pages[i]).start == s.pages[i].start
                    && e.pages[i].osize == s.pages[i].osize && e.pages[i].in_use
                    == s.pages[i].in_use
        }),
    decreases crate::gc::unmarked(s.objs), work.len(),
{
    if work.len() > 0 {
        let v = work.last();
        let rest = work.drop_last();
        if s.obj(v) is None || s.is_marked(v) {
            lemma_mark_pages(s, rest);
        } else {
            crate::gc::lemma_mark_one(s, v);
            let m = s.mark_one(v);
            lemma_mark_pages(m, rest + m.refs_of(v));
        }
    }
}

// --- what stays true --------------------------------------------------------

/// After a loop of marking, a page that holds a marked young object says that it
/// holds a young one; what was remembered is still there; everything remembered is
/// marked and old; and an old object that was marked and is not remembered
/// references old objects only.
proof fn lemma_mark_loop_old(s: State, work: Seq<u32>)
    requires
        s.slots_ok(),
        s.pages_tell(),
        forall|i: int, v: u32| #[trigger]
            s.holds(i, v) && s.is_marked(v) && !s.is_old(v) ==> s.pages[i].has_young,
        forall|k: int|
            0 <= k < s.remembered.len() ==> s.is_marked(#[trigger] s.remembered[k])
                && s.is_old(s.remembered[k]),
    ensures
        ({
            let e = s.mark_loop(work);
            &&& e.slots_ok()
            &&& forall|i: int, v: u32| #[trigger]
                e.holds(i, v) && e.is_marked(v) && !e.is_old(v) ==> e.pages[i].has_young
            &&& forall|k: int|
                0 <= k < e.remembered.len() ==> e.is_marked(#[trigger] e.remembered[k])
                    && e.is_old(e.remembered[k])
            &&& forall|v: u32| s.remembered.contains(v) ==> #[trigger] e.remembered.contains(v)
            &&& forall|u: u32, i: int|
                #![trigger s.refs_of(u)[i]]
                e.is_marked(u) && !s.is_marked(u) && e.is_old(u) && !e.remembered.contains(u) && 0
                    <= i < s.refs_of(u).len() && s.refs_of(u)[i] != NULL ==> e.is_old(
                    s.refs_of(u)[i],
                )
        }),
    decreases crate::gc::unmarked(s.objs), work.len(),
{
    if work.len() > 0 {
        let v = work.last();
        let rest = work.drop_last();
        if s.obj(v) is None || s.is_marked(v) {
            lemma_mark_loop_old(s, rest);
        } else {
            crate::gc::lemma_mark_one(s, v);
            lemma_mark_one_effect(s, v);
            let m = s.mark_one(v);
            let next = rest + m.refs_of(v);
            lemma_mark_one_slots(s, v);
            assert forall|k: int|
                0 <= k < m.remembered.len() implies m.is_marked(#[trigger] m.remembered[k])
                    && m.is_old(m.remembered[k]) by {
                if k < s.remembered.len() {
                    assert(s.remembered[k] == m.remembered[k]);
                    assert(s.obj(s.remembered[k]) is Some);
                }
            }
            lemma_mark_loop_old(m, next);
            lemma_mark_loop(m, next);
            let e = s.mark_loop(work);
            assert forall|u: u32| s.remembered.contains(u) implies #[trigger] e.remembered.contains(
                u,
            ) by {
                let k = choose|k: int| 0 <= k < s.remembered.len() && s.remembered[k] == u;
                assert(m.remembered[k] == u);
            }
            assert forall|u: u32, i: int|
                #![trigger s.refs_of(u)[i]]
                e.is_marked(u) && !s.is_marked(u) && e.is_old(u) && !e.remembered.contains(u) && 0
                    <= i < s.refs_of(u).len() && s.refs_of(u)[i] != NULL implies e.is_old(
                s.refs_of(u)[i],
            ) by {
                lemma_same_refs(s, m, u);
                let r = s.refs_of(u)[i];
                assert(m.refs_of(u)[i] == r);
                if u == v {
                    let was_old = s.is_old(v);
                    let a = s.with_bits(v, true, was_old).on_marked(v, was_old);
                    if a.has_young_ref(v) {
                        assert(m.remembered.last() == v);
                        assert(m.remembered[m.remembered.len() - 1] == v);
                        assert(m.remembered.contains(v));
                        assert(e.remembered.contains(v));
                        assert(false);
                    }
                    assert(a == m);
                    assert(m.is_old(r));
                } else {
                    assert(!m.is_marked(u));
                }
            }
        }
    }
}

proof fn lemma_mark_one_slots(s: State, v: u32)
    requires
        s.slots_ok(),
        s.pages_tell(),
        s.obj(v) is Some,
        forall|i: int, u: u32| #[trigger]
            s.holds(i, u) && s.is_marked(u) && !s.is_old(u) ==> s.pages[i].has_young,
    ensures
        s.mark_one(v).slots_ok(),
        forall|i: int, u: u32| #[trigger]
            s.mark_one(v).holds(i, u) && s.mark_one(v).is_marked(u) && !s.mark_one(v).is_old(u)
                ==> s.mark_one(v).pages[i].has_young,
{
    lemma_mark_one_effect(s, v);
    let m = s.mark_one(v);
    assert(m.pages.len() == s.pages.len());
    assert(m.region == s.region && m.pools == s.pools && m.free_pages == s.free_pages);
    assert forall|i: int| 0 <= i < s.pages.len() implies (#[trigger] m.pages[i]).start
        == s.pages[i].start && m.pages[i].osize == s.pages[i].osize && m.pages[i].in_use
        == s.pages[i].in_use && m.pages[i].free == s.pages[i].free && (s.pages[i].has_young
        ==> m.pages[i].has_young) by {}
    lemma_like_pages(s, m);
    assert forall|i: int, u: u32| #[trigger]
        m.holds(i, u) && m.is_marked(u) && !m.is_old(u) implies m.pages[i].has_young by {
        assert(s.holds(i, u));
        if u == v {
            let a = s.with_bits(v, true, false);
            assert(v >= 8);
            crate::gc::law_page_of(a.pages, (v - 8) as u32, i);
        }
    }
}

/// The allocator's invariant rests on where pages are, their slots and what is
/// free, not on their flags.
pub proof fn lemma_like_pages(s: State, e: State)
    requires
        s.slots_ok(),
        e.region == s.region,
        e.pools == s.pools,
        e.free_pages == s.free_pages,
        e.pages.len() == s.pages.len(),
        forall|i: int|
            0 <= i < s.pages.len() ==> (#[trigger] e.pages[i]).start == s.pages[i].start
                && e.pages[i].osize == s.pages[i].osize && e.pages[i].in_use == s.pages[i].in_use
                && e.pages[i].free == s.pages[i].free,
        forall|u: u32| #[trigger] e.obj(u) is Some <==> s.obj(u) is Some,
    ensures
        e.slots_ok(),
{
    assert(e.pages_placed()) by {
        assert forall|a: int, b: int| 0 <= a < b < e.pages.len() implies #[trigger] e.pages[a].start
            + PAGE_SIZE <= #[trigger] e.pages[b].start by {
            assert(s.pages[a].start + PAGE_SIZE <= s.pages[b].start);
        }
        assert forall|j: int| 0 <= j < e.pages.len() implies 8 + j * PAGE_SIZE <= (
        #[trigger] e.pages[j]).start && e.pages[j].start + PAGE_SIZE <= e.region.top && (
        e.pages[j].in_use ==> e.pages[j].osize > 0) by {
            assert(8 + j * PAGE_SIZE <= s.pages[j].start);
        }
    }
    assert forall|v: u32| #[trigger] e.obj(v) is Some implies exists|i: int| e.holds(i, v) by {
        assert(s.obj(v) is Some);
        let i = choose|i: int| s.holds(i, v);
        assert(e.holds(i, v));
    }
    assert forall|i: int|
        #![trigger e.pages[i]]
        0 <= i < e.pages.len() && e.pages[i].in_use implies e.free_list_ok(i) by {
        assert(s.free_list_ok(i));
        let pg = e.pages[i];
        assert forall|k: int| #![trigger pg.free[k]] 0 <= k < pg.free.len() implies is_slot(
            pg,
            past_header(pg.free[k]),
        ) && pg.free[k] >= pg.start && e.obj(past_header(pg.free[k])) is None by {
            assert(s.pages[i].free[k] == pg.free[k]);
        }
    }
    assert forall|a: int, k: int|
        #![trigger e.pools[a].page_q[k]]
        0 <= a < e.pools.len() && 0 <= k < e.pools[a].page_q.len() implies ({
        let j = e.pools[a].page_q[k] as int;
        j < e.pages.len() && e.pages[j].in_use && e.pages[j].osize == e.pools[a].osize
    }) by {
        let j = s.pools[a].page_q[k] as int;
        assert(s.pages[j].in_use);
    }
    assert forall|k: int| 0 <= k < e.free_pages.len() implies (#[trigger] e.free_pages[k])
        < e.pages.len() && !e.pages[e.free_pages[k] as int].in_use by {
        assert(s.free_pages[k] == e.free_pages[k]);
    }
}

/// Tracing the remembered objects makes them old; those it does not remember again
/// reference old objects only.
proof fn lemma_trace_old(s: State, rem: Seq<u32>, i: int, work: Seq<u32>)
    requires
        0 <= i <= rem.len(),
        forall|k: int| 0 <= k < rem.len() ==> s.is_marked(#[trigger] rem[k]),
        forall|k: int| 0 <= k < i && s.obj(#[trigger] rem[k]) is Some ==> s.is_old(rem[k]),
        forall|k: int|
            0 <= k < s.remembered.len() ==> s.is_marked(#[trigger] s.remembered[k])
                && s.is_old(s.remembered[k]),
    ensures
        ({
            let e = s.trace_remembered(rem, i, work).0;
            &&& s.same_objects(e)
            &&& e == (State { objs: e.objs, remembered: e.remembered, ..s })
            &&& forall|u: u32| s.is_old(u) ==> #[trigger] e.is_old(u)
            &&& forall|k: int| 0 <= k < rem.len() && s.obj(#[trigger] rem[k]) is Some ==> e.is_old(rem[k])
            &&& forall|k: int|
                0 <= k < e.remembered.len() ==> e.is_marked(#[trigger] e.remembered[k])
                    && e.is_old(e.remembered[k])
            &&& forall|v: u32| s.remembered.contains(v) ==> #[trigger] e.remembered.contains(v)
            &&& forall|k: int, j: int|
                #![trigger s.refs_of(rem[k])[j]]
                i <= k < rem.len() && !e.remembered.contains(rem[k]) && 0 <= j < s.refs_of(
                    rem[k],
                ).len() && s.refs_of(rem[k])[j] != NULL ==> e.is_old(s.refs_of(rem[k])[j])
        }),
    decreases rem.len() - i,
{
    if i < rem.len() {
        let a = s.with_bits(rem[i], true, true);
        lemma_with_bits(s, rem[i], true, true);
        let b = if a.has_young_ref(rem[i]) {
            a.remember(rem[i])
        } else {
            a
        };
        assert(forall|u: u32| #[trigger] b.obj(u) == a.obj(u));
        assert(a.same_objects(b));
        lemma_same_trans(s, a, b);
        lemma_same_refs(s, a, rem[i]);
        assert forall|k: int| 0 <= k < rem.len() implies b.is_marked(#[trigger] rem[k]) by {
            assert(s.is_marked(rem[k]));
            assert(a.is_marked(rem[k]));
        }
        assert forall|k: int| 0 <= k < i + 1 && b.obj(#[trigger] rem[k]) is Some implies b.is_old(
            rem[k],
        ) by {
            assert(s.obj(rem[k]) is Some <==> b.obj(rem[k]) is Some);
            assert(a.is_old(rem[k]));
        }
        assert forall|k: int|
            0 <= k < b.remembered.len() implies b.is_marked(#[trigger] b.remembered[k])
                && b.is_old(b.remembered[k]) by {
            let x = b.remembered[k];
            if k < s.remembered.len() {
                assert(s.remembered[k] == x);
                assert(s.is_marked(x));
            } else {
                assert(s.is_marked(rem[i]));
            }
            assert(a.is_marked(x) && a.is_old(x));
        }
        let more = work + a.refs_of(rem[i]);
        lemma_trace_old(b, rem, i + 1, more);
        let e = s.trace_remembered(rem, i, work).0;
        lemma_same_trans(s, b, e);
        assert forall|u: u32| s.is_old(u) implies #[trigger] e.is_old(u) by {
            assert(a.is_old(u));
            assert(b.is_old(u));
        }
        assert forall|k: int| 0 <= k < rem.len() && s.obj(#[trigger] rem[k]) is Some implies e.is_old(
            rem[k],
        ) by {
            assert(s.obj(rem[k]) is Some <==> b.obj(rem[k]) is Some);
        }
        assert forall|v: u32| s.remembered.contains(v) implies #[trigger] e.remembered.contains(v) by {
            let k = choose|k: int| 0 <= k < s.remembered.len() && s.remembered[k] == v;
            assert(b.remembered[k] == v);
        }
        assert forall|k: int, j: int|
            #![trigger s.refs_of(rem[k])[j]]
            i <= k < rem.len() && !e.remembered.contains(rem[k]) && 0 <= j < s.refs_of(rem[k]).len()
                && s.refs_of(rem[k])[j] != NULL implies e.is_old(s.refs_of(rem[k])[j]) by {
            let r = s.refs_of(rem[k])[j];
            if k == i {
                if a.has_young_ref(rem[i]) {
                    assert(b.remembered[b.remembered.len() - 1] == rem[i]);
                    assert(b.remembered.contains(rem[i]));
                    assert(false);
                }
                assert(a.refs_of(rem[i])[j] == r);
                assert(a.is_old(r));
                assert(b.is_old(r));
            } else {
                lemma_same_refs(s, b, rem[k]);
                assert(b.refs_of(rem[k])[j] == r);
            }
        }
    }
}

/// After marking: an old object that is marked and not remembered references old
/// objects only, remembered objects are old, and pages with marked young objects
/// say so.
pub(crate) proof fn lemma_mark_old(s: State)
    requires
        s.heap_ok(),
    ensures
        ({
            let e = s.mark();
            &&& e.slots_ok()
            &&& e.builtins == s.builtins
            &&& forall|i: int, v: u32| #[trigger]
                e.holds(i, v) && e.is_marked(v) && !e.is_old(v) ==> e.pages[i].has_young
            &&& forall|k: int|
                0 <= k < e.remembered.len() ==> e.is_marked(#[trigger] e.remembered[k])
                    && e.is_old(e.remembered[k])
            &&& forall|u: u32, i: int|
                #![trigger s.refs_of(u)[i]]
                e.is_marked(u) && e.is_old(u) && !e.remembered.contains(u) && 0 <= i < s.refs_of(
                    u,
                ).len() && s.obj(s.refs_of(u)[i]) is Some ==> e.is_old(s.refs_of(u)[i])
        }),
{
    lemma_mark(s);
    reveal(State::mark);
    let z = State { remembered: Seq::empty(), ..s };
    assert(forall|u: u32| #[trigger] z.obj(u) == s.obj(u));
    assert(forall|u: u32| #[trigger] z.is_marked(u) == s.is_marked(u));
    assert(s.same_objects(z));
    crate::slots::lemma_same_pages(s, z);
    crate::slots::lemma_same_tell(s, z);
    assert forall|k: int|
        0 <= k < s.remembered.len() && z.obj(#[trigger] s.remembered[k]) is Some implies z.is_marked(
        s.remembered[k],
    ) by {
        assert(s.obj(s.remembered[k]) is Some);
    }
    lemma_trace_remembered(z, s.remembered, 0, s.root_list());
    lemma_trace_old(z, s.remembered, 0, s.root_list());
    let (t, work) = z.trace_remembered(s.remembered, 0, s.root_list());
    assert(forall|u: u32| #[trigger] t.obj(u) is Some <==> z.obj(u) is Some);
    lemma_like_pages(z, t);
    assert forall|u: u32| #[trigger] t.is_marked(u) implies t.is_old(u) by {
        assert(s.is_marked(u));
        assert(z.is_marked(u));
        if !s.is_old(u) {
            let k = choose|k: int| 0 <= k < s.remembered.len() && s.remembered[k] == u;
            assert(z.obj(s.remembered[k]) is Some);
        } else {
            assert(z.is_old(u));
        }
    }
    lemma_mark_loop(t, work);
    lemma_mark_loop_old(t, work);
    let e = s.mark();
    lemma_same_trans(s, z, t);
    lemma_same_trans(s, t, e);
    assert forall|u: u32, i: int|
        #![trigger s.refs_of(u)[i]]
        e.is_marked(u) && e.is_old(u) && !e.remembered.contains(u) && 0 <= i < s.refs_of(u).len()
            && s.obj(s.refs_of(u)[i]) is Some implies e.is_old(s.refs_of(u)[i]) by {
        let r = s.refs_of(u)[i];
        lemma_same_refs(s, z, u);
        lemma_same_refs(s, t, u);
        crate::slots::lemma_empty_places(s, 0, 0);
        assert(r != NULL);
        if !t.is_marked(u) {
            assert(t.refs_of(u)[i] == r);
        } else {
            assert(z.is_marked(u));
            assert(s.is_marked(u));
            if s.remembered.contains(u) {
                let k = choose|k: int| 0 <= k < s.remembered.len() && s.remembered[k] == u;
                if t.remembered.contains(u) {
                    assert(e.remembered.contains(u));
                    assert(false);
                }
                assert(z.refs_of(s.remembered[k])[i] == r);
                assert(t.is_old(r));
            } else {
                assert(s.refs_marked(u, s));
                assert(s.is_marked(r));
                assert(z.is_marked(r));
                assert(t.is_marked(r));
                assert(t.is_old(r));
            }
        }
    }
}

/// Whether `f` lists empty slots of a page below byte position `pos`, each once.
spec fn lists_slots(s: State, start: u32, osize: u32, pos: int, f: Seq<u32>) -> bool {
    &&& f.no_duplicates()
    &&& forall|k: int|
        #![trigger f[k]]
        0 <= k < f.len() ==> {
            &&& start <= f[k] < start + pos
            &&& (f[k] - start) % (osize as int) == 0
            &&& f[k] - start + osize <= PAGE_SIZE
            &&& s.obj(past_header(f[k])) is None
        }
}

/// The walk of a page lists its free slots, and counts at least one survivor if
/// the object at `v` is marked.
proof fn lemma_walk_lists(
    s: State,
    start: u32,
    osize: u32,
    pos: int,
    full: bool,
    w: PageWalk,
    v: u32,
)
    requires
        start + PAGE_SIZE <= REGION_SIZE,
        osize > 0,
        0 <= pos <= PAGE_SIZE,
        pos % (osize as int) == 0,
        lists_slots(s, start, osize, pos, w.free),
        w.live_n <= pos,
    ensures
        ({
            let (e, w2) = s.sweep_slots(start, osize, pos, full, w);
            &&& lists_slots(e, start, osize, PAGE_SIZE as int, w2.free)
            &&& w.live_n > 0 ==> w2.live_n > 0
            &&& s.is_marked(v) && start + pos + 8 <= v && (v - 8 - start - pos) % (osize as int)
                == 0 && v - 8 - start + osize <= PAGE_SIZE ==> w2.live_n > 0
        }),
    decreases PAGE_SIZE - pos,
{
    if pos + osize <= PAGE_SIZE {
        let slot = (start + pos) as u32;
        let x = past_header(slot);
        assert(x == start + pos + 8);
        let s1 = if s.is_marked(x) {
            if !s.is_old(x) || full {
                s.with_bits(x, false, true)
            } else {
                s
            }
        } else {
            s.put(x, None)
        };
        let w1 = if s.is_marked(x) {
            if !s.is_old(x) {
                PageWalk {
                    live_n: crate::gc::inc32(w.live_n),
                    promoted: crate::gc::wrap64(w.promoted, osize as u64),
                    ..w
                }
            } else {
                PageWalk { live_n: crate::gc::inc32(w.live_n), ..w }
            }
        } else {
            PageWalk { free: w.free.push(slot), ..w }
        };
        assert(s.sweep_slots(start, osize, pos, full, w) == s1.sweep_slots(
            start,
            osize,
            pos + osize,
            full,
            w1,
        ));
        vstd::arithmetic::div_mod::lemma_mod_add_multiples_vanish(pos, osize as int);
        assert(lists_slots(s1, start, osize, pos + osize, w1.free)) by {
            assert forall|k: int| #![trigger w1.free[k]] 0 <= k < w1.free.len() implies start
                <= w1.free[k] < start + pos + osize && (w1.free[k] - start) % (osize as int) == 0
                && w1.free[k] - start + osize <= PAGE_SIZE && s1.obj(
                past_header(w1.free[k]),
            ) is None by {
                if k < w.free.len() {
                    let f = w.free[k];
                    assert(w1.free[k] == f);
                    lemma_put_none(s, x, past_header(f));
                    lemma_with_bits(s, x, false, true);
                } else {
                    lemma_put_none(s, x, x);
                }
            }
            assert(w1.free.no_duplicates()) by {
                assert forall|a: int, b: int| 0 <= a < w1.free.len() && 0 <= b < w1.free.len() && a
                    != b implies w1.free[a] != w1.free[b] by {
                    if a < w.free.len() {
                        assert(w1.free[a] == w.free[a]);
                    }
                    if b < w.free.len() {
                        assert(w1.free[b] == w.free[b]);
                    }
                }
            }
        }
        lemma_walk_lists(s1, start, osize, pos + osize, full, w1, v);
        if x != v {
            assert(s1.obj(v) == s.obj(v)) by {
                lemma_put_none(s, x, v);
                if s.has_slot(x) && s.has_slot(v) {
                    assert(x / 8 != v / 8);
                }
            }
            if v >= start + pos + 8 && (v - 8 - start - pos) % (osize as int) == 0 {
                let d = v - 8 - start - pos;
                assert(d >= osize && (d - osize) % (osize as int) == 0) by {
                    if 0 < d < osize {
                        vstd::arithmetic::div_mod::lemma_small_mod(d as nat, osize as nat);
                    }
                    vstd::arithmetic::div_mod::lemma_mod_sub_multiples_vanish(d, osize as int);
                }
                assert(v - 8 - start - (pos + osize) == d - osize);
            }
        }
    } else {
        assert(lists_slots(s, start, osize, PAGE_SIZE as int, w.free));
    }
}

proof fn lemma_without(q: Seq<usize>, x: usize)
    ensures
        forall|k: int|
            0 <= k < crate::gc::without(q, x).len() ==> q.contains(
                #[trigger] crate::gc::without(q, x)[k],
            ) && crate::gc::without(q, x)[k] != x,
    decreases q.len(),
{
    if q.len() > 0 {
        lemma_without(q.drop_last(), x);
        let r = crate::gc::without(q.drop_last(), x);
        assert forall|k: int| 0 <= k < crate::gc::without(q, x).len() implies q.contains(
            #[trigger] crate::gc::without(q, x)[k],
        ) && crate::gc::without(q, x)[k] != x by {
            if k < r.len() {
                assert(q.drop_last().contains(r[k]));
                let j = choose|j: int| 0 <= j < q.len() - 1 && q.drop_last()[j] == r[k];
                assert(q[j] == r[k]);
            } else {
                assert(q[q.len() - 1] == q.last());
            }
        }
    }
}

/// Replacing the page `idx` and taking objects of that page away keeps where the
/// other pages and objects are.
proof fn lemma_turn(s: State, e: State, idx: int)
    requires
        s.slots_ok(),
        s.pages_tell(),
        0 <= idx < s.pages.len(),
        e.region == s.region,
        e.pages.len() == s.pages.len(),
        e.pages[idx].start == s.pages[idx].start,
        e.pages[idx].osize == s.pages[idx].osize,
        forall|i: int| 0 <= i < s.pages.len() && i != idx ==> #[trigger] e.pages[i] == s.pages[i],
        e.pages[idx].in_use ==> s.pages[idx].in_use && e.free_list_ok(idx),
        forall|v: u32| #[trigger] e.obj(v) is Some ==> s.obj(v) is Some,
        forall|v: u32| #[trigger]
            e.obj(v) is Some && is_slot(s.pages[idx], v) && s.pages[idx].in_use
                ==> e.pages[idx].in_use,
        forall|v: u32| #[trigger] e.is_marked(v) ==> s.is_marked(v),
        forall|v: u32| #[trigger]
            e.is_marked(v) && e.pages[idx].in_use && is_slot(e.pages[idx], v)
                ==> e.pages[idx].has_marked,
        e.pools_ok(),
        e.free_pages_ok(),
    ensures
        e.slots_ok(),
        e.pages_tell(),
{
    assert(e.pages_placed()) by {
        assert forall|a: int, b: int| 0 <= a < b < e.pages.len() implies #[trigger] e.pages[a].start
            + PAGE_SIZE <= #[trigger] e.pages[b].start by {
            assert(s.pages[a].start + PAGE_SIZE <= s.pages[b].start);
        }
        assert forall|j: int| 0 <= j < e.pages.len() implies 8 + j * PAGE_SIZE <= (
        #[trigger] e.pages[j]).start && e.pages[j].start + PAGE_SIZE <= e.region.top && (
        e.pages[j].in_use ==> e.pages[j].osize > 0) by {
            assert(8 + j * PAGE_SIZE <= s.pages[j].start);
        }
    }
    assert forall|v: u32| #[trigger] e.obj(v) is Some implies exists|i: int| e.holds(i, v) by {
        assert(s.obj(v) is Some);
        let i = choose|i: int| s.holds(i, v);
        assert(e.holds(i, v));
    }
    assert forall|i: int|
        #![trigger e.pages[i]]
        0 <= i < e.pages.len() && e.pages[i].in_use implies e.free_list_ok(i) by {
        if i != idx {
            assert(s.free_list_ok(i));
            let pg = e.pages[i];
            assert forall|k: int| #![trigger pg.free[k]] 0 <= k < pg.free.len() implies is_slot(
                pg,
                past_header(pg.free[k]),
            ) && pg.free[k] >= pg.start && e.obj(past_header(pg.free[k])) is None by {
                assert(s.pages[i].free[k] == pg.free[k]);
                assert(s.obj(past_header(pg.free[k])) is None);
            }
        }
    }
    assert forall|j: int, v: u32|
        #![trigger on_page(e.pages[j], v)]
        0 <= j < e.pages.len() && e.pages[j].in_use && on_page(e.pages[j], v) && e.is_marked(
            v,
        ) implies e.pages[j].has_marked by {
        assert(s.is_marked(v));
        if j == idx {
            assert(e.obj(v) is Some);
            let i = choose|i: int| e.holds(i, v);
            assert(on_page(e.pages[i], v));
            crate::slots::lemma_one_page(e, i, j, v);
        } else {
            assert(on_page(s.pages[j], v));
        }
    }
    assert forall|i: int| 0 <= i < e.pages.len() implies (#[trigger] e.pages[i]).start + PAGE_SIZE
        <= REGION_SIZE by {
        assert(s.pages[i].start + PAGE_SIZE <= REGION_SIZE);
    }
}

proof fn lemma_release_ok(s: State, idx: int)
    requires
        s.slots_ok(),
        s.pages_tell(),
        0 <= idx < s.pages.len(),
        s.pages.len() <= usize::MAX,
        s.pages[idx].in_use,
        !s.pages[idx].has_marked,
    ensures
        s.release_page(idx).slots_ok(),
        s.release_page(idx).pages_tell(),
{
    let e = s.release_page(idx);
    let pg = s.pages[idx];
    assert(pg.start + PAGE_SIZE <= REGION_SIZE);
    assert forall|v: u32|
        (#[trigger] e.obj(v) is Some ==> s.obj(v) is Some) && (e.obj(v) is Some && is_slot(pg, v)
            ==> false) && (e.is_marked(v) ==> s.is_marked(v)) by {
        lemma_sweep_page(s, idx, false, v);
        if e.obj(v) is Some {
            let i = choose|i: int| s.holds(i, v);
            assert(i != idx);
            if on_page(pg, v) {
                assert(on_page(s.pages[i], v));
                crate::slots::lemma_one_page(s, i, idx, v);
            }
        }
    }
    let d = s.drop_slots(pg.start, pg.osize, 0);
    crate::gc::lemma_drop_slots_pages(s, pg.start, pg.osize, 0);
    let s1 = State {
        pages: d.pages.update(idx, PageV { in_use: false, live_n: 0, ..pg }),
        free_pages: d.free_pages.push(idx as usize),
        ..d
    };
    crate::slots::lemma_pool_index(s1.pools, pg.osize, 0);
    assert(e.pools_ok()) by {
        let pi = pool_index(s1.pools, pg.osize, 0);
        assert forall|a: int, k: int|
            #![trigger e.pools[a].page_q[k]]
            0 <= a < e.pools.len() && 0 <= k < e.pools[a].page_q.len() implies ({
            let j = e.pools[a].page_q[k] as int;
            j < e.pages.len() && e.pages[j].in_use && e.pages[j].osize == e.pools[a].osize
        }) by {
            if pi == Some(a) {
                let q = s.pools[a].page_q;
                lemma_without(q, idx as usize);
                let x = e.pools[a].page_q[k];
                assert(q.contains(x));
                let j = choose|j: int| 0 <= j < q.len() && q[j] == x;
                assert(s.pools[a].page_q[j] == x);
            } else {
                let x = s.pools[a].page_q[k];
                assert(e.pools[a].page_q[k] == x);
                if x == idx {
                    assert(s.pools[a].osize == pg.osize);
                    assert(false);
                }
            }
        }
    }
    assert(e.free_pages =~= s.free_pages.push(idx as usize));
    assert(e.free_pages_ok()) by {
        assert forall|k: int| 0 <= k < e.free_pages.len() implies (#[trigger] e.free_pages[k])
            < e.pages.len() && !e.pages[e.free_pages[k] as int].in_use by {
            if k < s.free_pages.len() {
                assert(s.free_pages[k] == e.free_pages[k]);
            }
        }
        assert forall|a: int, b: int| 0 <= a < e.free_pages.len() && 0 <= b < e.free_pages.len() && a
            != b implies e.free_pages[a] != e.free_pages[b] by {
            if a < s.free_pages.len() {
                assert(s.free_pages[a] == e.free_pages[a]);
            }
            if b < s.free_pages.len() {
                assert(s.free_pages[b] == e.free_pages[b]);
            }
        }
    }
    lemma_sweep_page(s, idx, false, 0);
    assert(e.pages[idx] == (PageV { in_use: false, live_n: 0, ..pg }));
    lemma_turn(s, e, idx);
}

proof fn lemma_walk_ok(s: State, idx: int, full: bool)
    requires
        s.slots_ok(),
        s.pages_tell(),
        0 <= idx < s.pages.len(),
        s.pages.len() <= usize::MAX,
        s.pages[idx].in_use,
    ensures
        s.walk_page(idx, full).0.slots_ok(),
        s.walk_page(idx, full).0.pages_tell(),
{
    let pg = s.pages[idx];
    assert(pg.start + PAGE_SIZE <= REGION_SIZE);
    assert(pg.osize > 0);
    let w0 = PageWalk { free: Seq::empty(), live_n: 0, promoted: 0 };
    let (d, w) = s.sweep_slots(pg.start, pg.osize, 0, full, w0);
    crate::gc::lemma_sweep_slots_pages(s, pg.start, pg.osize, 0, full, w0);
    vstd::arithmetic::div_mod::lemma_small_mod(0, pg.osize as nat);
    lemma_walk_lists(s, pg.start, pg.osize, 0, full, w0, 0);
    let new_pg = PageV {
        free: w.free,
        live_n: w.live_n,
        has_marked: w.live_n > 0,
        has_young: false,
        prev_nold: if full {
            w.live_n
        } else {
            pg.prev_nold
        },
        nold: if full {
            0
        } else {
            pg.nold
        },
        ..pg
    };
    let s1 = State { pages: d.pages.update(idx, new_pg), ..d };
    assert(s1.pages[idx] == new_pg);
    assert forall|v: u32|
        (#[trigger] s1.obj(v) is Some ==> s.obj(v) is Some) && (s1.is_marked(v) ==> s.is_marked(v))
            && (s1.is_marked(v) && is_slot(new_pg, v) ==> new_pg.has_marked) by {
        assert(s1.obj(v) == d.obj(v));
        lemma_sweep_slots(s, pg.start, pg.osize, 0, full, w0, v);
        lemma_walk_lists(s, pg.start, pg.osize, 0, full, w0, v);
        lemma_sweep_slots_bits(s, pg.start, pg.osize, 0, full, w0, v);
    }
    assert(s1.free_list_ok(idx)) by {
        assert forall|k: int| #![trigger new_pg.free[k]] 0 <= k < new_pg.free.len() implies is_slot(
            new_pg,
            past_header(new_pg.free[k]),
        ) && new_pg.free[k] >= new_pg.start && s1.obj(past_header(new_pg.free[k])) is None by {
            assert(w.free[k] == new_pg.free[k]);
            assert(s1.obj(past_header(w.free[k])) == d.obj(past_header(w.free[k])));
        }
    }
    assert(s1.pools == s.pools && s1.free_pages == s.free_pages && s1.region == s.region);
    assert(s1.pages.len() == s.pages.len());
    assert(forall|i: int| 0 <= i < s.pages.len() && i != idx ==> #[trigger] s1.pages[i] == s.pages[i]);
    assert(s1.pools_ok()) by {
        assert forall|a: int, k: int|
            #![trigger s1.pools[a].page_q[k]]
            0 <= a < s1.pools.len() && 0 <= k < s1.pools[a].page_q.len() implies ({
            let j = s1.pools[a].page_q[k] as int;
            j < s1.pages.len() && s1.pages[j].in_use && s1.pages[j].osize == s1.pools[a].osize
        }) by {
            let j = s.pools[a].page_q[k] as int;
            assert(s.pages[j].in_use);
        }
    }
    assert(s1.free_pages_ok()) by {
        assert forall|k: int| 0 <= k < s1.free_pages.len() implies (#[trigger] s1.free_pages[k])
            < s1.pages.len() && !s1.pages[s1.free_pages[k] as int].in_use by {
            assert(s.free_pages[k] == s1.free_pages[k]);
        }
    }
    lemma_turn(s, s1, idx);
    if w.free.len() > 0 {
        crate::slots::lemma_pool_for(s1, pg.osize);
        let (s2, pi) = s1.pool_for(pg.osize);
        assert(forall|v: u32| #[trigger] s2.is_marked(v) == s1.is_marked(v)) by {
            assert(forall|v: u32| #[trigger] s2.obj(v) == s1.obj(v));
        }
        crate::slots::lemma_same_tell(s1, s2);
        if !s2.pools[pi].page_q.contains(idx as usize) {
            let q = s2.pools[pi].page_q.push(idx as usize);
            assert forall|k: int| 0 <= k < q.len() implies (#[trigger] q[k]) < s2.pages.len()
                && s2.pages[q[k] as int].in_use && s2.pages[q[k] as int].osize
                == s2.pools[pi].osize by {
                if k < q.len() - 1 {
                    assert(s2.pools[pi].page_q[k] == q[k]);
                }
            }
            crate::slots::lemma_with_queue(s2, pi, q);
            let e = s2.with_queue(pi, q);
            assert(forall|v: u32| #[trigger] e.is_marked(v) == s2.is_marked(v)) by {
                assert(forall|v: u32| #[trigger] e.obj(v) == s2.obj(v));
            }
            crate::slots::lemma_same_tell(s2, e);
        }
    }
}

/// The walk of a page never adds a mark; it takes the mark of young objects and,
/// in a full sweep, of all.
proof fn lemma_sweep_slots_bits(
    s: State,
    start: u32,
    osize: u32,
    pos: int,
    full: bool,
    w: PageWalk,
    v: u32,
)
    requires
        start + PAGE_SIZE <= REGION_SIZE,
        0 <= pos,
    ensures
        ({
            let e = s.sweep_slots(start, osize, pos, full, w).0;
            &&& e.is_marked(v) ==> e.obj(v) == s.obj(v)
            &&& !full && s.is_marked(v) && s.is_old(v) ==> e.obj(v) == s.obj(v)
            &&& osize > 0 && (full || !s.is_old(v)) && start + pos + 8 <= v && (v - 8 - start - pos)
                % (osize as int) == 0 && v - 8 - start + osize <= PAGE_SIZE ==> !e.is_marked(v)
        }),
    decreases PAGE_SIZE - pos,
{
    if !(osize == 0 || pos < 0 || pos + osize > PAGE_SIZE) {
        let slot = (start + pos) as u32;
        let x = past_header(slot);
        assert(x == start + pos + 8);
        let s1 = if s.is_marked(x) {
            if !s.is_old(x) || full {
                s.with_bits(x, false, true)
            } else {
                s
            }
        } else {
            s.put(x, None)
        };
        let w1 = if s.is_marked(x) {
            if !s.is_old(x) {
                PageWalk {
                    live_n: crate::gc::inc32(w.live_n),
                    promoted: crate::gc::wrap64(w.promoted, osize as u64),
                    ..w
                }
            } else {
                PageWalk { live_n: crate::gc::inc32(w.live_n), ..w }
            }
        } else {
            PageWalk { free: w.free.push(slot), ..w }
        };
        assert(s.sweep_slots(start, osize, pos, full, w) == s1.sweep_slots(
            start,
            osize,
            pos + osize,
            full,
            w1,
        ));
        lemma_sweep_slots_bits(s1, start, osize, pos + osize, full, w1, v);
        lemma_sweep_slots(s1, start, osize, pos + osize, full, w1, v);
        lemma_with_bits(s, x, false, true);
        lemma_put_none(s, x, v);
        if x != v {
            assert(s1.obj(v) == s.obj(v)) by {
                if s.has_slot(x) && s.has_slot(v) {
                    assert(x / 8 != v / 8);
                }
            }
            if osize > 0 && v >= start + pos + 8 && (v - 8 - start - pos) % (osize as int) == 0 {
                let d = v - 8 - start - pos;
                assert(d >= osize && (d - osize) % (osize as int) == 0) by {
                    if 0 < d < osize {
                        vstd::arithmetic::div_mod::lemma_small_mod(d as nat, osize as nat);
                    }
                    vstd::arithmetic::div_mod::lemma_mod_sub_multiples_vanish(d, osize as int);
                }
                assert(v - 8 - start - (pos + osize) == d - osize);
            }
        }
    }
}

proof fn lemma_page_count(s: State)
    requires
        s.pages_placed(),
    ensures
        s.pages.len() <= 64,
{
    let n = s.pages.len() as int;
    if n > 0 {
        assert(8 + (n - 1) * PAGE_SIZE <= s.pages[n - 1].start);
        assert(s.pages[n - 1].start + PAGE_SIZE <= s.region.top);
    }
}

/// A sweep keeps the allocator's invariant and what the pages say of marks, adds no
/// mark, leaves scanned old objects alone in a quick sweep, and takes the marks of
/// young objects that their page tells of and, in a full sweep, of all.
pub(crate) proof fn lemma_sweep_ok(s: State, idx: int, n: int, full: bool, acc: Sweep)
    requires
        0 <= idx,
        n <= s.pages.len(),
        s.slots_ok(),
        s.pages_tell(),
    ensures
        ({
            let e = s.sweep_pages(idx, n, full, acc).0;
            &&& e.slots_ok()
            &&& e.pages_tell()
            &&& e.builtins == s.builtins
            &&& e.layouts == s.layouts
            &&& e.remembered == s.remembered
            &&& e.objs.len() == s.objs.len()
            &&& forall|v: u32| #[trigger] e.is_marked(v) ==> e.obj(v) == s.obj(v)
            &&& forall|v: u32|
                !full && #[trigger] s.is_marked(v) && s.is_old(v) ==> e.obj(v) == s.obj(v)
            &&& forall|i: int, v: u32| #[trigger]
                s.holds(i, v) && idx <= i < n && (full || (!s.is_old(v) && s.pages[i].has_young))
                    ==> !e.is_marked(v)
        }),
    decreases n - idx,
{
    lemma_page_count(s);
    if idx < n {
        let pg = s.pages[idx];
        let (s1, acc1) = if !pg.in_use {
            (s, acc)
        } else if !pg.has_marked {
            lemma_release_ok(s, idx);
            (s.release_page(idx), acc)
        } else if s.page_settled(pg, full) {
            (
                s,
                Sweep {
                    survivors: crate::gc::wrap64(acc.survivors, pg.live_n as u64),
                    live_bytes: crate::gc::wrap64(
                        acc.live_bytes,
                        crate::gc::bytes_of(pg.live_n, pg.osize),
                    ),
                    ..acc
                },
            )
        } else {
            lemma_walk_ok(s, idx, full);
            let w = s.walk_page(idx, full).1;
            (
                s.walk_page(idx, full).0,
                Sweep {
                    survivors: crate::gc::wrap64(acc.survivors, w.live_n as u64),
                    live_bytes: crate::gc::wrap64(
                        acc.live_bytes,
                        crate::gc::bytes_of(w.live_n, pg.osize),
                    ),
                    promoted: crate::gc::wrap64(acc.promoted, w.promoted),
                    walked: crate::gc::wrap64(acc.walked, 1),
                },
            )
        };
        assert(s.sweep_pages(idx, n, full, acc) == s1.sweep_pages(idx + 1, n, full, acc1));
        lemma_turn_frame(s, idx, full);
        assert(s1.pages.len() == s.pages.len());
        lemma_sweep_ok(s1, idx + 1, n, full, acc1);
        let e = s.sweep_pages(idx, n, full, acc).0;
        assert forall|v: u32| #[trigger] e.is_marked(v) implies e.obj(v) == s.obj(v) by {
            assert(e.obj(v) == s1.obj(v));
            if pg.in_use {
                lemma_turn_bits(s, idx, full, v);
            }
        }
        assert forall|v: u32|
            !full && #[trigger] s.is_marked(v) && s.is_old(v) implies e.obj(v) == s.obj(v) by {
            if pg.in_use {
                lemma_turn_bits(s, idx, full, v);
            }
            assert(s1.obj(v) == s.obj(v));
            assert(s1.is_marked(v));
        }
        assert forall|i: int, v: u32| #[trigger]
            s.holds(i, v) && idx <= i < n && (full || (!s.is_old(v) && s.pages[i].has_young)) implies !e.is_marked(
            v,
        ) by {
            if pg.in_use {
                lemma_turn_bits(s, idx, full, v);
            }
            if i == idx {
                if e.is_marked(v) {
                    assert(e.obj(v) == s1.obj(v));
                    assert(s1.is_marked(v));
                    assert(s1.obj(v) == s.obj(v));
                    assert(on_page(pg, v));
                    assert(pg.has_marked);
                    assert(false);
                }
            } else {
                assert(s1.pages[i] == s.pages[i]);
                assert(s1.holds(i, v));
                assert(on_page(s.pages[i], v));
                if on_page(pg, v) {
                    crate::slots::lemma_one_page(s, i, idx, v);
                }
                assert(s1.obj(v) == s.obj(v));
            }
        }
    }
}

proof fn lemma_turn_frame(s: State, idx: int, full: bool)
    requires
        0 <= idx < s.pages.len(),
        s.pages[idx].start + PAGE_SIZE <= REGION_SIZE,
    ensures
        s.release_page(idx).builtins == s.builtins,
        s.release_page(idx).layouts == s.layouts,
        s.release_page(idx).remembered == s.remembered,
        s.release_page(idx).objs.len() == s.objs.len(),
        s.release_page(idx).pages.len() == s.pages.len(),
        forall|i: int|
            0 <= i < s.pages.len() && i != idx ==> #[trigger] s.release_page(idx).pages[i]
                == s.pages[i],
        s.walk_page(idx, full).0.builtins == s.builtins,
        s.walk_page(idx, full).0.layouts == s.layouts,
        s.walk_page(idx, full).0.remembered == s.remembered,
        s.walk_page(idx, full).0.objs.len() == s.objs.len(),
        s.walk_page(idx, full).0.pages.len() == s.pages.len(),
        forall|i: int|
            0 <= i < s.pages.len() && i != idx ==> #[trigger] s.walk_page(idx, full).0.pages[i]
                == s.pages[i],
{
    let pg = s.pages[idx];
    crate::gc::lemma_drop_slots_pages(s, pg.start, pg.osize, 0);
    let w0 = PageWalk { free: Seq::empty(), live_n: 0, promoted: 0 };
    crate::gc::lemma_sweep_slots_pages(s, pg.start, pg.osize, 0, full, w0);
    lemma_sweep_page(s, idx, full, 0);
}

/// What one page's turn does to the collector bits of the object at `v`.
proof fn lemma_turn_bits(s: State, idx: int, full: bool, v: u32)
    requires
        s.slots_ok(),
        s.pages_tell(),
        0 <= idx < s.pages.len(),
        s.pages[idx].in_use,
    ensures
        s.pages[idx].has_marked || ({
            let e = s.release_page(idx);
            &&& e.is_marked(v) ==> e.obj(v) == s.obj(v)
            &&& s.is_marked(v) ==> e.obj(v) == s.obj(v)
        }),
        !on_page(s.pages[idx], v) ==> s.release_page(idx).obj(v) == s.obj(v),
        !on_page(s.pages[idx], v) ==> s.walk_page(idx, full).0.obj(v) == s.obj(v),
        ({
            let e = s.walk_page(idx, full).0;
            &&& e.is_marked(v) ==> e.obj(v) == s.obj(v)
            &&& !full && s.is_marked(v) && s.is_old(v) ==> e.obj(v) == s.obj(v)
            &&& is_slot(s.pages[idx], v) && (full || !s.is_old(v)) ==> !e.is_marked(v)
        }),
{
    let pg = s.pages[idx];
    assert(pg.start + PAGE_SIZE <= REGION_SIZE);
    lemma_sweep_page(s, idx, full, v);
    let w0 = PageWalk { free: Seq::empty(), live_n: 0, promoted: 0 };
    lemma_sweep_slots_bits(s, pg.start, pg.osize, 0, full, w0, v);
    let d = s.sweep_slots(pg.start, pg.osize, 0, full, w0).0;
    assert(s.walk_page(idx, full).0.obj(v) == d.obj(v));
    if !pg.has_marked {
        let e = s.release_page(idx);
        if s.is_marked(v) {
            assert(!on_page(s.pages[idx], v));
        }
        if e.is_marked(v) && on_page(pg, v) {
            lemma_drop_slots_same(s, pg.start, pg.osize, 0, v);
            let r = s.drop_slots(pg.start, pg.osize, 0);
            assert(e.obj(v) == r.obj(v));
        }
    }
}

/// Dropping slots changes no object but by taking it away.
proof fn lemma_drop_slots_same(s: State, start: u32, osize: u32, pos: int, v: u32)
    ensures
        s.drop_slots(start, osize, pos).obj(v) is Some ==> s.drop_slots(start, osize, pos).obj(v)
            == s.obj(v),
    decreases PAGE_SIZE - pos,
{
    if !(osize == 0 || pos < 0 || pos + osize > PAGE_SIZE) {
        let x = past_header((start + pos) as u32);
        lemma_put_none(s, x, v);
        lemma_drop_slots_same(s.put(x, None), start, osize, pos + osize, v);
    }
}

proof fn lemma_requeue_bits(s: State, i: int)
    requires
        0 <= i,
    ensures
        ({
            let e = s.requeue(i);
            &&& e == (State { objs: e.objs, ..s })
            &&& forall|v: u32|
                (forall|k: int| i <= k < s.remembered.len() ==> #[trigger] s.remembered[k] != v)
                    ==> #[trigger] e.obj(v) == s.obj(v)
            &&& forall|k: int|
                i <= k < s.remembered.len() && s.obj(#[trigger] s.remembered[k]) is Some
                    ==> e.is_marked(s.remembered[k])
            &&& forall|v: u32| s.is_marked(v) ==> #[trigger] e.is_marked(v)
        }),
    decreases s.remembered.len() - i,
{
    if i < s.remembered.len() {
        let x = s.remembered[i];
        let a = s.with_bits(x, true, false);
        lemma_with_bits(s, x, true, false);
        lemma_requeue_bits(a, i + 1);
        let e = s.requeue(i);
        assert(a == (State { objs: a.objs, ..s }));
        assert forall|v: u32|
            (forall|k: int| i <= k < s.remembered.len() ==> #[trigger] s.remembered[k] != v) implies #[trigger] e.obj(
            v,
        ) == s.obj(v) by {
            assert(s.remembered[i] != v);
            assert(a.obj(v) == s.obj(v)) by {
                if s.has_slot(x) && s.has_slot(v) {
                    assert(x / 8 != v / 8);
                }
            }
            assert(forall|k: int| i + 1 <= k < a.remembered.len() ==> #[trigger] a.remembered[k] != v);
        }
        assert forall|k: int|
            i <= k < s.remembered.len() && s.obj(
                #[trigger] s.remembered[k],
            ) is Some implies e.is_marked(s.remembered[k]) by {
            if k == i {
                assert(a.is_marked(x));
            } else {
                assert(a.remembered[k] == s.remembered[k]);
                assert(s.obj(s.remembered[k]) is Some <==> a.obj(s.remembered[k]) is Some);
            }
        }
        assert forall|v: u32| s.is_marked(v) implies #[trigger] e.is_marked(v) by {
            assert(a.is_marked(v));
        }
    }
}

/// A collection adds no mark to those of the marking.
pub proof fn lemma_collect_marks(s: State, full: bool, v: u32)
    requires
        s.heap_ok(),
        s.collect(full).is_marked(v),
    ensures
        s.mark().is_marked(v),
{
    lemma_mark(s);
    lemma_mark_old(s);
    let m = s.mark();
    let n = m.pages.len() as int;
    let acc0 = Sweep { survivors: 0, live_bytes: 0, promoted: 0, walked: 0 };
    lemma_sweep_ok(m, 0, n, full, acc0);
    reveal(State::sweep);
    reveal(State::collect);
    let p = m.sweep_pages(0, n, full, acc0).0;
    let (t, acc) = m.sweep(full);
    assert(t.obj(v) == p.obj(v));
    let e = s.collect(full);
    if full {
        assert(e.obj(v) == t.obj(v));
        assert(p.is_marked(v));
    } else {
        let u = t.requeue(0);
        lemma_requeue_bits(t, 0);
        assert(e.obj(v) == u.obj(v));
        if exists|k: int| 0 <= k < t.remembered.len() && #[trigger] t.remembered[k] == v {
            let k = choose|k: int| 0 <= k < t.remembered.len() && #[trigger] t.remembered[k] == v;
            assert(m.remembered[k] == v);
        } else {
            assert(u.obj(v) == t.obj(v));
            assert(p.is_marked(v));
        }
    }
}

/// A collection keeps the collector's invariant, where references lead from every
/// live object to what its references are found by.
pub proof fn law_collect_keeps_heap(s: State, full: bool)
    requires
        s.heap_ok(),
        s.types_reached(),
    ensures
        s.collect(full).heap_ok(),
{
    lemma_mark(s);
    lemma_mark_old(s);
    let m = s.mark();
    let n = m.pages.len() as int;
    let acc0 = Sweep { survivors: 0, live_bytes: 0, promoted: 0, walked: 0 };
    lemma_sweep_ok(m, 0, n, full, acc0);
    reveal(State::sweep);
    reveal(State::collect);
    let p = m.sweep_pages(0, n, full, acc0).0;
    let (t, acc) = m.sweep(full);
    assert(forall|v: u32| #[trigger] t.obj(v) == p.obj(v));
    crate::slots::lemma_same_pages(p, t);
    assert(forall|v: u32| #[trigger] t.is_marked(v) == p.is_marked(v));
    crate::slots::lemma_same_tell(p, t);
    let e = s.collect(full);
    if full {
        assert(forall|v: u32| #[trigger] e.obj(v) == t.obj(v));
        crate::slots::lemma_same_pages(t, e);
        assert forall|v: u32| !(#[trigger] e.is_marked(v)) by {
            if e.is_marked(v) {
                assert(p.is_marked(v));
                assert(m.obj(v) is Some);
                let i = choose|i: int| m.holds(i, v);
                assert(false);
            }
        }
        crate::slots::lemma_same_tell(t, e);
    } else {
        let u = t.requeue(0);
        lemma_requeue(t, 0);
        lemma_requeue_bits(t, 0);
        assert(forall|v: u32| #[trigger] e.obj(v) == u.obj(v));
        assert(forall|v: u32| #[trigger] e.obj(v) is Some <==> t.obj(v) is Some);
        lemma_like_pages(t, e);
        assert(e.remembered == m.remembered);
        assert forall|v: u32| #[trigger] e.is_marked(v) implies t.is_marked(v) by {
            if exists|k: int| 0 <= k < t.remembered.len() && #[trigger] t.remembered[k] == v {
                let k = choose|k: int| 0 <= k < t.remembered.len() && #[trigger] t.remembered[k] == v;
                assert(t.obj(v) is Some);
                assert(p.obj(v) is Some);
                lemma_sweep_pages(m, 0, n, full, acc0, v);
                assert(m.obj(m.remembered[k]) is Some);
                assert(m.is_marked(v) && m.is_old(v));
                assert(p.obj(v) == m.obj(v));
                assert(p.is_marked(v));
            } else {
                assert(u.obj(v) == t.obj(v));
            }
        }
        crate::slots::lemma_same_tell(t, e);
        assert forall|k: int|
            0 <= k < e.remembered.len() implies e.is_marked(#[trigger] e.remembered[k]) by {
            assert(t.remembered[k] == e.remembered[k]);
            assert(t.obj(t.remembered[k]) is Some);
            assert(u.is_marked(t.remembered[k]));
        }
        assert forall|v: u32| #[trigger] e.is_marked(v) && !e.is_old(v) implies e.remembered.contains(
            v,
        ) by {
            if !e.remembered.contains(v) {
                assert forall|k: int| 0 <= k < t.remembered.len() implies #[trigger] t.remembered[k] != v by {
                    assert(e.remembered[k] == t.remembered[k]);
                }
                assert(u.obj(v) == t.obj(v));
                assert(p.is_marked(v));
                assert(p.obj(v) == m.obj(v));
                let i = choose|i: int| m.holds(i, v);
                assert(m.holds(i, v));
                assert(m.pages[i].has_young);
                assert(false);
            }
        }
        assert forall|v: u32| #[trigger]
            e.is_marked(v) && !e.remembered.contains(v) implies e.refs_marked(v, e) by {
            assert forall|k: int| 0 <= k < t.remembered.len() implies #[trigger] t.remembered[k] != v by {
                assert(e.remembered[k] == t.remembered[k]);
            }
            assert(u.obj(v) == t.obj(v));
            assert(p.is_marked(v));
            assert(p.obj(v) == m.obj(v));
            assert(m.is_marked(v) && m.is_old(v));
            assert(s.obj(v) is Some);
            assert forall|x: u32| #[trigger] s.reads(v, x) implies s.tag(x) == e.tag(x) && s.data(x)
                == e.data(x) by {
                if x == NULL {
                    crate::slots::lemma_empty_places(s, 0, 0);
                    crate::slots::lemma_empty_places(e, 0, 0);
                } else {
                    lemma_marked_live(s, v);
                    assert(s.reaches(v, x));
                    let path = choose|path: Seq<u32>| #[trigger]
                        s.leads(path) && path[0] == v && path.last() == x;
                    lemma_path_marked(s, m, path, path.len() - 1);
                    lemma_marked_kept(s, full, x);
                }
            }
            lemma_local_refs(s, e, v);
            assert forall|i: int|
                0 <= i < e.refs_of(v).len() && e.obj(
                    #[trigger] e.refs_of(v)[i],
                ) is Some implies e.is_marked(e.refs_of(v)[i]) by {
                let r = e.refs_of(v)[i];
                assert(s.refs_of(v)[i] == r);
                assert(t.obj(r) is Some);
                assert(p.obj(r) is Some);
                lemma_sweep_pages(m, 0, n, full, acc0, r);
                assert(m.obj(r) is Some);
                assert(s.obj(r) is Some);
                assert(s.refs_marked(v, m));
                assert(m.is_marked(r));
                assert(m.is_old(r));
                assert(p.obj(r) == m.obj(r));
                assert(t.is_marked(r));
                assert(u.is_marked(r));
            }
        }
    }
}

/// What marking reached is kept.
pub proof fn lemma_marked_kept(s: State, full: bool, v: u32)
    requires
        s.heap_ok(),
        s.mark().is_marked(v),
    ensures
        s.kept(s.collect(full), v),
{
    lemma_mark(s);
    let m = s.mark();
    reveal(State::sweep);
    let acc = Sweep { survivors: 0, live_bytes: 0, promoted: 0, walked: 0 };
    lemma_sweep_pages(m, 0, m.pages.len() as int, full, acc, v);
    let t = m.sweep(full).0;
    assert(t.obj(v) == m.sweep_pages(0, m.pages.len() as int, full, acc).0.obj(v));
    assert(m.kept(t, v));
    lemma_after_sweep(s, full);
    let e = s.collect(full);
    assert(e.tag(v) == t.tag(v));
    assert(m.tag(v) == s.tag(v));
}

/// Storing a reference through the barrier keeps the collector's invariant, where
/// the store changes no other marked object's references and adds at most that one.
pub proof fn law_store_keeps_heap(s: State, v: u32, i: int, r: u32)
    requires
        s.heap_ok(),
        forall|u: u32|
            u != v && s.is_marked(u) ==> #[trigger] s.set_ref(v, i, r).refs_of(u) == s.refs_of(u),
        forall|k: int|
            #![trigger s.set_ref(v, i, r).refs_of(v)[k]]
            0 <= k < s.set_ref(v, i, r).refs_of(v).len() ==> s.set_ref(v, i, r).refs_of(v)[k] == r
                || s.refs_of(v).contains(s.set_ref(v, i, r).refs_of(v)[k]),
    ensures
        s.set_ref(v, i, r).heap_ok(),
{
    let b = s.write_barrier(v, r);
    let e = s.set_ref(v, i, r);
    if b != s {
        lemma_with_bits(s, v, true, false);
    }
    assert(forall|u: u32|
        (#[trigger] e.obj(u) is Some <==> b.obj(u) is Some) && e.is_marked(u) == b.is_marked(u)
            && e.is_old(u) == b.is_old(u)) by {
        assert forall|u: u32|
            (#[trigger] e.obj(u) is Some <==> b.obj(u) is Some) && e.is_marked(u) == b.is_marked(u)
                && e.is_old(u) == b.is_old(u) by {
            if b.has_slot(u) && b.has_slot(v) && u != v {
                assert(u / 8 != v / 8);
            }
        }
    }
    assert(forall|u: u32| #[trigger] b.is_marked(u) == s.is_marked(u));
    assert(forall|u: u32| #[trigger] b.obj(u) is Some <==> s.obj(u) is Some) by {
        assert(b != s ==> s.same_objects(s.with_bits(v, true, false)));
        assert(forall|u: u32| b != s ==> #[trigger] b.obj(u) == s.with_bits(v, true, false).obj(u));
    }
    lemma_like_pages(s, e);
    crate::slots::lemma_same_tell(s, e);
    assert(e.remembered == b.remembered);
    assert forall|u: u32| s.remembered.contains(u) implies #[trigger] e.remembered.contains(u) by {
        let k = choose|k: int| 0 <= k < s.remembered.len() && s.remembered[k] == u;
        assert(e.remembered[k] == u);
    }
    if b != s {
        assert(e.remembered[e.remembered.len() - 1] == v);
        assert(e.remembered.contains(v));
    }
    assert forall|k: int|
        0 <= k < e.remembered.len() implies e.is_marked(#[trigger] e.remembered[k]) by {
        let x = e.remembered[k];
        assert(s.obj(x) is Some);
        if k < s.remembered.len() {
            assert(s.remembered[k] == x);
        }
        assert(b.is_marked(x) == s.is_marked(x));
    }
    assert forall|u: u32| #[trigger] e.is_marked(u) && !e.is_old(u) implies e.remembered.contains(u) by {
        assert(b.is_marked(u) && !b.is_old(u));
        assert(s.is_marked(u));
        if b == s || u != v {
            assert(s.remembered.contains(u)) by {
                if b != s {
                    assert(b.is_old(u) == s.with_bits(v, true, false).is_old(u));
                }
                assert(!s.is_old(u));
            }
        }
    }
    assert forall|u: u32| #[trigger] e.is_marked(u) && !e.remembered.contains(u) implies e.refs_marked(
        u,
        e,
    ) by {
        assert(s.is_marked(u)) by {
            assert(b.is_marked(u));
        }
        assert(!s.remembered.contains(u));
        assert(s.refs_marked(u, s));
        assert forall|k: int|
            0 <= k < e.refs_of(u).len() && e.obj(#[trigger] e.refs_of(u)[k]) is Some implies e.is_marked(
            e.refs_of(u)[k],
        ) by {
            let x = e.refs_of(u)[k];
            assert(s.obj(x) is Some);
            if u != v || s.refs_of(v).contains(x) {
                if u != v {
                    assert(e.refs_of(u) == s.refs_of(u));
                    assert(s.refs_of(u)[k] == x);
                } else {
                    let j = choose|j: int| 0 <= j < s.refs_of(v).len() && s.refs_of(v)[j] == x;
                    assert(s.refs_of(u)[j] == x);
                }
                assert(s.is_marked(x));
            } else {
                assert(x == r);
                crate::slots::lemma_empty_places(s, 0, 0);
                assert(s.is_old(v));
                assert(b == s);
                assert(s.is_marked(r));
            }
            assert(b.is_marked(x) == s.is_marked(x));
        }
    }
}

/// Filling a slot that an allocation handed out with a young object keeps the
/// collector's invariant, where what marked objects reference and what their
/// references are found by is there.
pub proof fn law_new_object_keeps_heap(s: State, total: int, o: ObjV)
    requires
        s.heap_ok(),
        s.types_present(),
        0 < total,
        s.alloc_chunk(total).1 != NULL,
        !o.marked,
    ensures
        ({
            let (a, h) = s.alloc_chunk(total);
            a.put(past_header(h), Some(o)).heap_ok()
        }),
{
    crate::slots::law_alloc_chunk(s, total);
    let (a, h) = s.alloc_chunk(total);
    let v = past_header(h);
    let e = a.put(v, Some(o));
    let at = choose|i: int| #[trigger] a.holds(i, v) && a.pages[i].osize >= total;
    assert(forall|u: u32| #[trigger] a.obj(u) == s.obj(u)) by {
        assert(a.objs == s.objs);
    }
    assert forall|u: u32| u != v implies #[trigger] e.obj(u) == s.obj(u) by {
        assert(a.obj(u) == s.obj(u));
        if a.has_slot(u) && a.has_slot(v) {
            assert(u / 8 != v / 8);
        }
    }
    assert(!e.is_marked(v));
    assert(forall|u: u32| #[trigger] e.is_marked(u) == s.is_marked(u)) by {
        assert(s.obj(v) is None);
        assert forall|u: u32| #[trigger] e.is_marked(u) == s.is_marked(u) by {
            assert(u != v ==> e.obj(u) == s.obj(u));
        }
    }
    assert(e.objects_placed()) by {
        assert forall|u: u32| #[trigger] e.obj(u) is Some implies exists|i: int| e.holds(i, u) by {
            if u == v {
                assert(e.holds(at, v));
            } else {
                assert(a.obj(u) is Some);
                let i = choose|i: int| a.holds(i, u);
                assert(e.holds(i, u));
            }
        }
    }
    assert forall|i: int|
        #![trigger e.pages[i]]
        0 <= i < e.pages.len() && e.pages[i].in_use implies e.free_list_ok(i) by {
        assert(a.free_list_ok(i));
        let pg = e.pages[i];
        assert forall|k: int| #![trigger pg.free[k]] 0 <= k < pg.free.len() implies is_slot(
            pg,
            past_header(pg.free[k]),
        ) && pg.free[k] >= pg.start && e.obj(past_header(pg.free[k])) is None by {
            assert(a.pages[i].free[k] == pg.free[k]);
            assert(pg.free[k] != h);
            assert(a.obj(past_header(pg.free[k])) is None);
            assert(past_header(pg.free[k]) != v);
        }
    }
    assert(e.slots_ok()) by {
        assert(e.pages == a.pages && e.pools == a.pools && e.free_pages == a.free_pages && e.region
            == a.region);
        assert(e.pages_placed());
        assert forall|x: int, k: int|
            #![trigger e.pools[x].page_q[k]]
            0 <= x < e.pools.len() && 0 <= k < e.pools[x].page_q.len() implies ({
            let j = e.pools[x].page_q[k] as int;
            j < e.pages.len() && e.pages[j].in_use && e.pages[j].osize == e.pools[x].osize
        }) by {
            let j = a.pools[x].page_q[k] as int;
            assert(a.pages[j].in_use);
        }
        assert forall|k: int| 0 <= k < e.free_pages.len() implies (#[trigger] e.free_pages[k])
            < e.pages.len() && !e.pages[e.free_pages[k] as int].in_use by {
            assert(a.free_pages[k] == e.free_pages[k]);
        }
    }
    crate::slots::lemma_same_tell(a, e);
    assert forall|k: int|
        0 <= k < e.remembered.len() implies e.is_marked(#[trigger] e.remembered[k]) by {
        let x = e.remembered[k];
        assert(s.remembered[k] == x);
        assert(s.is_marked(x));
    }
    assert forall|u: u32| #[trigger] e.is_marked(u) && !e.remembered.contains(u) implies e.refs_marked(
        u,
        e,
    ) by {
        assert(s.is_marked(u));
        assert(s.refs_marked(u, s));
        assert forall|k: int|
            0 <= k < e.refs_of(u).len() && e.obj(#[trigger] e.refs_of(u)[k]) is Some implies e.is_marked(
            e.refs_of(u)[k],
        ) by {
            assert forall|x: u32| #[trigger] s.reads(u, x) implies s.tag(x) == e.tag(x) && s.data(x)
                == e.data(x) by {
                crate::slots::lemma_empty_places(s, 0, 0);
                assert(x != v);
                assert(e.obj(x) == s.obj(x));
            }
            lemma_local_refs(s, e, u);
            let x = e.refs_of(u)[k];
            assert(s.refs_of(u)[k] == x);
            assert(v != NULL);
            assert(x != v);
            assert(s.obj(x) is Some);
        }
    }
}

/// A heap that was reset holds the collector's invariant.
pub proof fn law_new_heap(s: State)
    ensures
        s.reset_heap().region_init().heap_ok(),
{
    let e = s.reset_heap().region_init();
    assert(forall|v: u32| #[trigger] e.obj(v) is None);
    assert(forall|v: u32| !(#[trigger] e.is_marked(v)));
}

// --- what a collection leaves alone -----------------------------------------

proof fn lemma_mark_loop_frame(s: State, work: Seq<u32>)
    ensures
        ({
            let e = s.mark_loop(work);
            e == (State { objs: e.objs, pages: e.pages, remembered: e.remembered, ..s })
        }),
    decreases crate::gc::unmarked(s.objs), work.len(),
{
    if work.len() > 0 {
        let v = work.last();
        let rest = work.drop_last();
        if s.obj(v) is None || s.is_marked(v) {
            lemma_mark_loop_frame(s, rest);
        } else {
            crate::gc::lemma_mark_one(s, v);
            let m = s.mark_one(v);
            lemma_mark_loop_frame(m, rest + m.refs_of(v));
        }
    }
}

proof fn lemma_trace_frame(s: State, rem: Seq<u32>, i: int, work: Seq<u32>)
    ensures
        ({
            let e = s.trace_remembered(rem, i, work).0;
            e == (State { objs: e.objs, remembered: e.remembered, ..s })
        }),
    decreases rem.len() - i,
{
    if !(i < 0 || i >= rem.len()) {
        let a = s.with_bits(rem[i], true, true);
        let b = if a.has_young_ref(rem[i]) {
            a.remember(rem[i])
        } else {
            a
        };
        lemma_trace_frame(b, rem, i + 1, work + a.refs_of(rem[i]));
    }
}

proof fn lemma_sweep_frame(s: State, idx: int, n: int, full: bool, acc: Sweep)
    ensures
        ({
            let e = s.sweep_pages(idx, n, full, acc).0;
            e == (State {
                objs: e.objs,
                pools: e.pools,
                pages: e.pages,
                free_pages: e.free_pages,
                ..s
            })
        }),
    decreases n - idx,
{
    if !(idx < 0 || idx >= n || idx >= s.pages.len()) {
        let pg = s.pages[idx];
        crate::gc::lemma_drop_slots_pages(s, pg.start, pg.osize, 0);
        let w0 = PageWalk { free: Seq::empty(), live_n: 0, promoted: 0 };
        crate::gc::lemma_sweep_slots_pages(s, pg.start, pg.osize, 0, full, w0);
        if !pg.in_use {
            lemma_sweep_frame(s, idx + 1, n, full, acc);
        } else if !pg.has_marked {
            lemma_sweep_frame(s.release_page(idx), idx + 1, n, full, acc);
        } else if s.page_settled(pg, full) {
            lemma_sweep_frame(
                s,
                idx + 1,
                n,
                full,
                Sweep {
                    survivors: crate::gc::wrap64(acc.survivors, pg.live_n as u64),
                    live_bytes: crate::gc::wrap64(
                        acc.live_bytes,
                        crate::gc::bytes_of(pg.live_n, pg.osize),
                    ),
                    ..acc
                },
            );
        } else {
            let (t, w) = s.walk_page(idx, full);
            lemma_sweep_frame(
                t,
                idx + 1,
                n,
                full,
                Sweep {
                    survivors: crate::gc::wrap64(acc.survivors, w.live_n as u64),
                    live_bytes: crate::gc::wrap64(
                        acc.live_bytes,
                        crate::gc::bytes_of(w.live_n, pg.osize),
                    ),
                    promoted: crate::gc::wrap64(acc.promoted, w.promoted),
                    walked: crate::gc::wrap64(acc.walked, 1),
                },
            );
        }
    }
}

/// A collection changes blocks, pages and the collector's own state alone.
pub proof fn lemma_collect_frame(s: State, full: bool)
    ensures
        ({
            let e = s.collect(full);
            e == (State {
                objs: e.objs,
                pools: e.pools,
                pages: e.pages,
                free_pages: e.free_pages,
                remembered: e.remembered,
                stats: e.stats,
                ..s
            })
        }),
{
    reveal(State::collect);
    reveal(State::mark);
    reveal(State::sweep);
    let z = State { remembered: Seq::empty(), ..s };
    lemma_trace_frame(z, s.remembered, 0, s.root_list());
    let (t, work) = z.trace_remembered(s.remembered, 0, s.root_list());
    lemma_mark_loop_frame(t, work);
    let m = s.mark();
    let acc0 = Sweep { survivors: 0, live_bytes: 0, promoted: 0, walked: 0 };
    lemma_sweep_frame(m, 0, m.pages.len() as int, full, acc0);
    let (p, acc) = m.sweep(full);
    lemma_requeue_bits(p, 0);
}

} // verus!
