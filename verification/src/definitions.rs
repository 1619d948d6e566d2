//! Definitions keep a heap in order.
//!
//! A definition makes symbols, names, vectors and types one after the other. Each is
//! filled while nothing refers to it and held on the shadow stack afterwards, and what
//! is stored into an object that is held goes through the write barrier.

use vstd::prelude::*;
use crate::gc::PAGE_SIZE;
use crate::health::{
    law_alloc_keeps_rooted, lemma_fill_healthy, lemma_kept_good, lemma_live_closed,
    lemma_live_good, lemma_only_at_trans, lemma_reaches_ends, lemma_reaches_trans,
    lemma_same_good, lemma_word_only_at, lemma_write_words, like, loose, only_at, reach_kept,
    roots_kept, steady,
};
use crate::id;
use crate::ir::FnKind;
use crate::region::NULL;
use crate::state::{State, SymV};
use crate::stores::{held, lemma_set_ref, lemma_store_healthy, lemma_store_plain, rewritten};
use crate::survival::{law_store_keeps_heap, lemma_local_refs, lemma_reaches_self};
use crate::symbol::sym_index;
use crate::types::{DataType, DT_SIZE};
use crate::uniquing::{
    base_kept, dt_words, grown, lemma_alloc_pushed, lemma_base_of_kept, lemma_base_trans,
    lemma_core_tag, lemma_described_kept, lemma_fill_type, lemma_make_svec, lemma_new_good,
    lemma_plain_refs, lemma_push_healthy, lemma_root_kept, lemma_write_dt,
};

verus! {

// --- roots ------------------------------------------------------------------

/// Whether `r` is one of the roots that stand outside the shadow stack and the tables:
/// a core type, a shared name or a shared value.
pub open spec fn core_root(s: State, r: u32) -> bool {
    match s.builtins {
        Some(b) => b.types.contains(r) || r == b.true_instance || r == b.false_instance || r
            == b.tuple_typename || r == b.box_typename || r == b.pair_typename || r
            == b.type_typename || r == b.memory_typename || r == b.array_typename,
        None => false,
    }
}

/// Whether `r` is a root.
pub open spec fn root(s: State, r: u32) -> bool {
    ||| s.roots.contains(r)
    ||| core_root(s, r)
    ||| exists|i: int| 0 <= i < s.syms.len() && (#[trigger] s.syms[i]).off == r
    ||| exists|i: int| 0 <= i < s.methods.len() && (#[trigger] s.methods[i]).sig == r
    ||| exists|i: int| 0 <= i < s.functions.len() && (#[trigger] s.functions[i]).0 == r
    ||| exists|i: int| 0 <= i < s.structs.len() && (#[trigger] s.structs[i]).1 == r
    ||| s.exc.contains(r)
    ||| r == s.main
}

spec fn core_list(s: State) -> Seq<u32> {
    match s.builtins {
        Some(b) => b.types + seq![
            b.true_instance,
            b.false_instance,
            b.tuple_typename,
            b.box_typename,
            b.pair_typename,
            b.type_typename,
            b.memory_typename,
            b.array_typename,
        ],
        None => Seq::empty(),
    }
}

proof fn lemma_core_list(s: State, r: u32)
    ensures
        core_list(s).contains(r) <==> core_root(s, r),
{
    match s.builtins {
        Some(b) => {
            let c = core_list(s);
            let n = b.types.len() as int;
            if core_root(s, r) {
                if b.types.contains(r) {
                    let i = choose|i: int| 0 <= i < n && b.types[i] == r;
                    assert(c[i] == r);
                }
                assert(c[n] == b.true_instance && c[n + 1] == b.false_instance);
                assert(c[n + 2] == b.tuple_typename && c[n + 3] == b.box_typename);
                assert(c[n + 4] == b.pair_typename && c[n + 5] == b.type_typename);
                assert(c[n + 6] == b.memory_typename && c[n + 7] == b.array_typename);
            }
            if c.contains(r) {
                let i = choose|i: int| 0 <= i < c.len() && c[i] == r;
                if i < n {
                    assert(b.types[i] == r);
                }
            }
        },
        None => {},
    }
}

proof fn lemma_in_concat(a: Seq<u32>, b: Seq<u32>, r: u32)
    ensures
        (a + b).contains(r) <==> a.contains(r) || b.contains(r),
{
    if a.contains(r) {
        let i = choose|i: int| 0 <= i < a.len() && a[i] == r;
        assert((a + b)[i] == r);
    }
    if b.contains(r) {
        let i = choose|i: int| 0 <= i < b.len() && b[i] == r;
        assert((a + b)[a.len() + i] == r);
    }
    if (a + b).contains(r) {
        let i = choose|i: int| 0 <= i < (a + b).len() && (a + b)[i] == r;
        if i < a.len() {
            assert(a[i] == r);
        } else {
            assert(b[i - a.len()] == r);
        }
    }
}

/// The roots, named by where they stand.
pub proof fn lemma_root(s: State, r: u32)
    ensures
        s.root_list().contains(r) <==> root(s, r),
{
    reveal(State::root_list);
    let a = s.syms.map_values(|x: SymV| x.off);
    let b = s.methods.map_values(|e: crate::ir::Entry| e.sig);
    let c = s.functions.map_values(|f: (u32, FnKind)| f.0);
    let d = s.structs.map_values(|p: (u32, u32)| p.1);
    let m = seq![s.main];
    let k = core_list(s);
    lemma_core_list(s, r);
    lemma_in_concat(s.roots, k, r);
    lemma_in_concat(s.roots + k, a, r);
    lemma_in_concat(s.roots + k + a, b, r);
    lemma_in_concat(s.roots + k + a + b, c, r);
    lemma_in_concat(s.roots + k + a + b + c, d, r);
    lemma_in_concat(s.roots + k + a + b + c + d, s.exc, r);
    lemma_in_concat(s.roots + k + a + b + c + d + s.exc, m, r);
    assert(s.root_list() =~= s.roots + k + a + b + c + d + s.exc + m);
    assert(m.contains(r) <==> r == s.main) by {
        assert(m[0] == s.main);
    }
    assert(a.contains(r) <==> exists|i: int|
        0 <= i < s.syms.len() && (#[trigger] s.syms[i]).off == r) by {
        if a.contains(r) {
            let i = choose|i: int| 0 <= i < a.len() && a[i] == r;
            assert(s.syms[i].off == r);
        }
        if exists|i: int| 0 <= i < s.syms.len() && (#[trigger] s.syms[i]).off == r {
            let i = choose|i: int| 0 <= i < s.syms.len() && (#[trigger] s.syms[i]).off == r;
            assert(a[i] == r);
        }
    }
    assert(b.contains(r) <==> exists|i: int|
        0 <= i < s.methods.len() && (#[trigger] s.methods[i]).sig == r) by {
        if b.contains(r) {
            let i = choose|i: int| 0 <= i < b.len() && b[i] == r;
            assert(s.methods[i].sig == r);
        }
        if exists|i: int| 0 <= i < s.methods.len() && (#[trigger] s.methods[i]).sig == r {
            let i = choose|i: int| 0 <= i < s.methods.len() && (#[trigger] s.methods[i]).sig == r;
            assert(b[i] == r);
        }
    }
    assert(c.contains(r) <==> exists|i: int|
        0 <= i < s.functions.len() && (#[trigger] s.functions[i]).0 == r) by {
        if c.contains(r) {
            let i = choose|i: int| 0 <= i < c.len() && c[i] == r;
            assert(s.functions[i].0 == r);
        }
        if exists|i: int| 0 <= i < s.functions.len() && (#[trigger] s.functions[i]).0 == r {
            let i = choose|i: int| 0 <= i < s.functions.len() && (#[trigger] s.functions[i]).0 == r;
            assert(c[i] == r);
        }
    }
    assert(d.contains(r) <==> exists|i: int|
        0 <= i < s.structs.len() && (#[trigger] s.structs[i]).1 == r) by {
        if d.contains(r) {
            let i = choose|i: int| 0 <= i < d.len() && d[i] == r;
            assert(s.structs[i].1 == r);
        }
        if exists|i: int| 0 <= i < s.structs.len() && (#[trigger] s.structs[i]).1 == r {
            let i = choose|i: int| 0 <= i < s.structs.len() && (#[trigger] s.structs[i]).1 == r;
            assert(d[i] == r);
        }
    }
}

/// Whether the tables of `e` hold what those of `s` hold, and perhaps more.
pub open spec fn tables_grow(s: State, e: State) -> bool {
    &&& e.builtins == s.builtins
    &&& s.syms.len() <= e.syms.len()
    &&& forall|i: int| 0 <= i < s.syms.len() ==> #[trigger] e.syms[i] == s.syms[i]
    &&& s.methods.len() <= e.methods.len()
    &&& forall|i: int| 0 <= i < s.methods.len() ==> #[trigger] e.methods[i] == s.methods[i]
    &&& s.functions.len() <= e.functions.len()
    &&& forall|i: int| 0 <= i < s.functions.len() ==> #[trigger] e.functions[i] == s.functions[i]
    &&& s.structs.len() <= e.structs.len()
    &&& forall|i: int| 0 <= i < s.structs.len() ==> #[trigger] e.structs[i] == s.structs[i]
    &&& e.exc == s.exc
    &&& e.main == s.main || s.main == NULL
}

/// Roots stay where tables grow.
pub proof fn lemma_root_stays(s: State, e: State, r: u32)
    requires
        tables_grow(s, e),
        forall|x: u32| #[trigger] s.roots.contains(x) ==> e.roots.contains(x),
        root(s, r),
        r != NULL,
    ensures
        root(e, r),
{
    if s.roots.contains(r) {
        assert(e.roots.contains(r));
    } else if exists|i: int| 0 <= i < s.syms.len() && (#[trigger] s.syms[i]).off == r {
        let i = choose|i: int| 0 <= i < s.syms.len() && (#[trigger] s.syms[i]).off == r;
        assert(e.syms[i].off == r);
    } else if exists|i: int| 0 <= i < s.methods.len() && (#[trigger] s.methods[i]).sig == r {
        let i = choose|i: int| 0 <= i < s.methods.len() && (#[trigger] s.methods[i]).sig == r;
        assert(e.methods[i].sig == r);
    } else if exists|i: int| 0 <= i < s.functions.len() && (#[trigger] s.functions[i]).0 == r {
        let i = choose|i: int| 0 <= i < s.functions.len() && (#[trigger] s.functions[i]).0 == r;
        assert(e.functions[i].0 == r);
    } else if exists|i: int| 0 <= i < s.structs.len() && (#[trigger] s.structs[i]).1 == r {
        let i = choose|i: int| 0 <= i < s.structs.len() && (#[trigger] s.structs[i]).1 == r;
        assert(e.structs[i].1 == r);
    }
}

/// Whether `e` differs from `s` in the shadow stack and the tables alone.
pub open spec fn rerooted(s: State, e: State) -> bool {
    e == (State {
        roots: e.roots,
        syms: e.syms,
        structs: e.structs,
        methods: e.methods,
        functions: e.functions,
        next_func: e.next_func,
        exc: e.exc,
        main: e.main,
        ..s
    })
}

/// Where the roots are good values, a heap stays healthy.
pub proof fn lemma_rerooted(s: State, e: State)
    requires
        s.healthy(),
        rerooted(s, e),
        forall|r: u32| #[trigger] root(e, r) ==> s.good(r),
    ensures
        e.healthy(),
        s.described() ==> e.described(),
        forall|x: u32| #[trigger] s.good(x) ==> e.good(x),
        forall|x: u32, u: u32| s.good(x) ==> (#[trigger] e.reaches(x, u) <==> s.reaches(x, u)),
        forall|r: u32| #[trigger] e.root_list().contains(r) <==> root(e, r),
        (forall|r: u32| root(s, r) && r != NULL ==> #[trigger] root(e, r)) ==> base_kept(s, e),
        (forall|r: u32| #[trigger] root(e, r) ==> root(s, r)) ==> steady(s, e),
{
    crate::slots::lemma_empty_places(s, 0, 0);
    assert(forall|v: u32| #[trigger] e.obj(v) == s.obj(v));
    assert(e.slots_ok()) by {
        crate::slots::lemma_same_pages(s, e);
    }
    crate::slots::lemma_same_tell(s, e);
    crate::health::lemma_same_heap(s, e);
    assert(forall|off: u32, k: int| #[trigger] e.layout_word(off, k) == s.layout_word(off, k));
    assert(like(s, e));
    assert forall|x: u32| #[trigger] s.good(x) implies e.good(x) by {
        lemma_same_good(s, e, x);
    }
    assert forall|x: u32, u: u32| s.good(x) implies (#[trigger] e.reaches(x, u) <==> s.reaches(
        x,
        u,
    )) by {
        lemma_same_good(s, e, x);
    }
    assert forall|r: u32| #[trigger] e.root_list().contains(r) <==> root(e, r) by {
        lemma_root(e, r);
    }
    assert forall|r: u32| #[trigger] e.root_list().contains(r) implies e.good(r) by {
        assert(root(e, r));
    }
    assert forall|v: u32| #[trigger] e.is_marked(v) implies e.good(v) by {
        assert(s.is_marked(v));
        assert(s.good(v));
    }
    if s.described() {
        crate::writes::lemma_holds_same(s, e, s.builtin(id::DATATYPE), 5);
        crate::writes::lemma_holds_same(s, e, s.builtin(id::TYPENAME), 3);
        crate::writes::lemma_holds_same(s, e, s.builtin(id::SYMBOL), 0);
        crate::writes::lemma_holds_same(s, e, s.builtin(id::MODULE), 3);
    }
    if forall|r: u32| root(s, r) && r != NULL ==> #[trigger] root(e, r) {
        assert forall|r: u32| #[trigger] s.root_list().contains(r) && r
            != NULL implies e.root_list().contains(r) && reach_kept(s, e, r) by {
            lemma_root(s, r);
            assert(root(e, r));
            assert forall|u: u32| #[trigger] s.reaches(r, u) implies s.kept(e, u) by {
                lemma_reaches_ends(s, r, u);
            }
        }
    }
    if forall|r: u32| #[trigger] root(e, r) ==> root(s, r) {
        assert forall|u: u32| #[trigger] e.live(u) implies s.live(u) && forall|w: u32| #[trigger]
            e.reaches(u, w) <==> s.reaches(u, w) by {
            let r = choose|r: u32|
                (e.root_list().contains(r) || e.is_marked(r)) && #[trigger] e.reaches(r, u);
            if e.root_list().contains(r) {
                assert(root(e, r));
                assert(root(s, r));
                lemma_root(s, r);
            } else {
                assert(s.is_marked(r));
            }
            assert(s.good(r));
            assert(s.reaches(r, u));
            assert(s.live(u));
            lemma_live_good(s, u);
        }
    }
}

// --- symbols and names ------------------------------------------------------

impl State {
    /// Whether the heap is in order and the core types describe their instances.
    #[verifier::opaque]
    pub open spec fn in_order(self) -> bool {
        self.healthy() && self.described()
    }
}

/// Whether the roots of `s` stay, and what they reach.
#[verifier::opaque]
pub open spec fn carried(s: State, e: State) -> bool {
    base_kept(s, e)
}

/// Whether `e` follows `s` with a heap in order: the roots stay, and what they reach.
pub open spec fn follows(s: State, e: State) -> bool {
    e.in_order() && carried(s, e)
}

pub proof fn lemma_follows_trans(s: State, a: State, b: State)
    requires
        s.in_order(),
        follows(s, a),
        follows(a, b),
    ensures
        follows(s, b),
{
    reveal(State::in_order);
    reveal(carried);
    lemma_base_trans(s, a, b);
}

pub proof fn lemma_follows_refl(s: State)
    requires
        s.in_order(),
    ensures
        follows(s, s),
{
    reveal(State::in_order);
    reveal(carried);
    assert forall|r: u32| #[trigger] root(s, r) implies s.good(r) by {
        lemma_root(s, r);
    }
    lemma_rerooted(s, s);
}

pub proof fn lemma_fill_only_at(s: State, v: u32, base: int, text: Seq<u8>, k: int)
    requires
        s.obj(v) is Some,
    ensures
        only_at(s, s.fill(v, base, text, k), v),
        s.fill(v, base, text, k).tag(v) == s.tag(v),
    decreases text.len() - k,
{
    if !(k < 0 || k >= text.len()) {
        let a = s.with_byte(v, base + k, text[k]);
        assert forall|u: u32| u != v implies #[trigger] a.obj(u) == s.obj(u) by {
            if s.has_slot(u) && s.has_slot(v) {
                assert(u / 8 != v / 8);
            }
        }
        assert(only_at(s, a, v));
        lemma_fill_only_at(a, v, base, text, k + 1);
        lemma_only_at_trans(s, a, s.fill(v, base, text, k), v);
    } else {
        assert(only_at(s, s, v));
    }
}

pub proof fn lemma_fill_nowhere(s: State, v: u32, base: int, text: Seq<u8>, k: int)
    requires
        s.obj(v) is None,
    ensures
        s.fill(v, base, text, k) == s,
    decreases text.len() - k,
{
    if !(k < 0 || k >= text.len()) {
        lemma_fill_nowhere(s, v, base, text, k + 1);
    }
}

/// An object without references, whose type is good, is good.
pub proof fn lemma_leaf(s: State, v: u32)
    requires
        s.in_order(),
        s.obj(v) is Some,
        s.tag(v) != NULL,
        s.tag(v) != s.builtin(id::SVEC),
        s.tag(v) != s.builtin(id::DATATYPE),
        s.tag(s.tag(v)) == s.builtin(id::DATATYPE),
        s.holds_refs(s.tag(v), 0),
        s.good(s.tag(v)),
    ensures
        s.good(v),
{
    reveal(State::in_order);
    reveal(carried);
    crate::slots::lemma_empty_places(s, 0, 0);
    lemma_plain_refs(s, v, 0);
    assert(s.refs_of(v)[0] == s.tag(v));
    assert forall|r: u32| #[trigger] s.refs_of(v).contains(r) implies s.good(r) by {
        assert(r == s.tag(v));
    }
    lemma_new_good(s, v);
}

/// A new object on a heap in order, with nothing but the roots held.
pub proof fn lemma_fresh(s: State, t: u32, size: int)
    requires
        s.in_order(),
        0 <= size,
    ensures
        ({
            let (e, v) = s.alloc_object(t, size);
            &&& grown(s, e)
            &&& follows(s, e)
            &&& v != NULL ==> loose(e, v) && e.obj(v) == Some(
                crate::state::ObjV {
                    tag: (t - t % 4) as u32,
                    marked: false,
                    old: false,
                    data: crate::bytes::zeros(size as nat),
                },
            )
            &&& forall|r: u32| #[trigger]
                s.root_list().contains(r) ==> e.good(r) && (v != NULL ==> !e.reaches(r, v))
        }),
{
    reveal(State::in_order);
    reveal(carried);
    let none = Seq::<u32>::empty();
    assert(s.push_roots(none) =~= s) by {
        assert(s.roots + none =~= s.roots);
    }
    lemma_alloc_pushed(s, none, t, size);
    let (e, v) = s.alloc_object(t, size);
    assert(e.pop_roots(0) =~= e) by {
        assert(e.roots.take(e.roots.len() as int) =~= e.roots);
    }
}

/// A loose object of the type of symbols is a good one however it is filled.
proof fn lemma_fill_symbol(a: State, c: State, v: u32)
    requires
        a.in_order(),
        loose(a, v),
        only_at(a, c, v),
        c.tag(v) == a.builtin(id::SYMBOL),
    ensures
        follows(a, c),
        c.good(v),
{
    reveal(State::in_order);
    reveal(carried);
    lemma_fill_healthy(a, c, v);
    lemma_base_of_kept(a, c);
    lemma_described_kept(a, c);
    crate::health::lemma_builtin_is_root(c, id::SYMBOL);
    lemma_leaf(c, v);
}

/// Entering a good symbol into the table makes it a root.
proof fn lemma_add_symbol(c: State, text: Seq<u8>, v: u32)
    requires
        c.in_order(),
        c.good(v),
    ensures
        ({
            let e = State { syms: c.syms.push(SymV { text, off: v }), ..c };
            follows(c, e) && e.good(v) && e.root_list().contains(v)
        }),
{
    reveal(State::in_order);
    reveal(carried);
    let e = State { syms: c.syms.push(SymV { text, off: v }), ..c };
    assert forall|r: u32| #[trigger] root(e, r) implies c.good(r) by {
        lemma_root(c, r);
        if !root(c, r) {
            let i = choose|i: int| 0 <= i < e.syms.len() && (#[trigger] e.syms[i]).off == r;
            if i < c.syms.len() {
                assert(c.syms[i].off == r);
            }
            assert(r == v);
        }
    }
    assert forall|r: u32| root(c, r) && r != NULL implies #[trigger] root(e, r) by {
        lemma_root_stays(c, e, r);
    }
    lemma_rerooted(c, e);
    assert(e.syms[c.syms.len() as int].off == v);
    assert(root(e, v));
}

/// Whether `e` differs from `s` in the heap, the region and the symbols alone.
pub open spec fn tables_stay(s: State, e: State) -> bool {
    e == (State {
        objs: e.objs,
        layouts: e.layouts,
        region: e.region,
        pools: e.pools,
        pages: e.pages,
        free_pages: e.free_pages,
        remembered: e.remembered,
        stats: e.stats,
        syms: e.syms,
        ..s
    })
}

/// A symbol that was not there.
proof fn lemma_new_symbol(s: State, text: Seq<u8>)
    requires
        s.in_order(),
    ensures
        ({
            let n = 4 + text.len() as int;
            let (a, v) = s.alloc_object(s.builtin(id::SYMBOL), n);
            let c = a.with_word(v, 0, text.len() as u32).fill(v, 4, text, 0);
            follows(s, c) && c.good(v) && tables_stay(s, c) && c.syms == s.syms
        }),
{
    reveal(State::in_order);
    reveal(carried);
    let n = 4 + text.len() as int;
    let sy = s.builtin(id::SYMBOL);
    lemma_core_tag(s, id::SYMBOL);
    lemma_fresh(s, sy, n);
    let (a, v) = s.alloc_object(sy, n);
    let b = a.with_word(v, 0, text.len() as u32);
    let c = b.fill(v, 4, text, 0);
    if v == NULL {
        crate::slots::lemma_empty_places(a, 0, 0);
        lemma_fill_nowhere(b, v, 4, text, 0);
    } else {
        lemma_word_only_at(a, v, 0, text.len() as u32);
        lemma_fill_only_at(b, v, 4, text, 0);
        lemma_only_at_trans(a, b, c, v);
        lemma_fill_symbol(a, c, v);
        lemma_follows_trans(s, a, c);
    }
}

/// Interning keeps a heap in order; the symbol is a root.
pub proof fn lemma_intern(s: State, text: Seq<u8>)
    requires
        s.in_order(),
    ensures
        ({
            let (e, v) = s.intern(s.builtin(id::SYMBOL), text);
            &&& follows(s, e)
            &&& e.good(v)
            &&& v != NULL ==> e.root_list().contains(v)
            &&& tables_stay(s, e)
        }),
{
    reveal(State::in_order);
    reveal(carried);
    reveal(State::intern);
    if text.len() > PAGE_SIZE {
        lemma_follows_refl(s);
    } else {
        match sym_index(s.syms, text, 0) {
            Some(i) => {
                lemma_follows_refl(s);
                crate::symbol::lemma_sym_index(s.syms, SymV { text, off: NULL }, 0);
                let v = s.syms[i].off;
                assert(root(s, v));
                lemma_root(s, v);
                assert(s.good(v));
            },
            None => {
                let n = 4 + text.len() as int;
                let (a, v) = s.alloc_object(s.builtin(id::SYMBOL), n);
                let c = a.with_word(v, 0, text.len() as u32).fill(v, 4, text, 0);
                lemma_new_symbol(s, text);
                lemma_add_symbol(c, text, v);
                lemma_follows_trans(s, c, State { syms: c.syms.push(SymV { text, off: v }), ..c });
            },
        }
    }
}

/// A loose name object is a good one once it holds a good symbol.
proof fn lemma_fill_name(c: State, e: State, v: u32, sym: u32)
    requires
        c.in_order(),
        loose(c, v),
        only_at(c, e, v),
        e.tag(v) == c.builtin(id::TYPENAME),
        e.word(v, 0) == sym,
        e.word(v, 4) == NULL,
        e.word(v, 8) == NULL,
        c.good(sym) && !c.reaches(sym, v),
    ensures
        e.in_order(),
        roots_kept(c, e),
        e.root_list() == c.root_list(),
        loose(e, v),
        e.good(v),
        e.good(sym) && !e.reaches(sym, v),
{
    reveal(State::in_order);
    reveal(carried);
    lemma_fill_healthy(c, e, v);
    crate::slots::lemma_empty_places(e, 0, 0);
    lemma_base_of_kept(c, e);
    lemma_described_kept(c, e);
    let tt = e.builtin(id::TYPENAME);
    crate::health::lemma_builtin_is_root(e, id::TYPENAME);
    lemma_plain_refs(e, v, 3);
    let refs = e.refs_of(v);
    assert(refs[0] == tt);
    assert(refs[1] == e.word(v, 4 * 0int) && refs[2] == e.word(v, 4 * 1int) && refs[3] == e.word(
        v,
        4 * 2int,
    ));
    assert forall|r: u32| #[trigger] refs.contains(r) implies e.good(r) by {
        let k = choose|k: int| 0 <= k < refs.len() && refs[k] == r;
        assert(k == 0 || k == 1 || k == 2 || k == 3);
    }
    lemma_new_good(e, v);
}

/// A name object over a good symbol is loose and good.
pub proof fn lemma_typename(s: State, sym: u32)
    requires
        s.in_order(),
        s.good(sym),
    ensures
        ({
            let (e, v) = s.make_typename(s.builtin(id::TYPENAME), sym);
            &&& grown(s, e)
            &&& v != NULL ==> {
                &&& loose(e, v)
                &&& e.good(v)
                &&& e.tag(v) == e.builtin(id::TYPENAME)
                &&& e.data(v).len() == 16
                &&& e.word(v, 0) == sym
                &&& e.word(v, 4) == NULL
                &&& e.word(v, 8) == NULL
                &&& e.good(sym) && !e.reaches(sym, v)
            }
        }),
{
    reveal(State::in_order);
    reveal(carried);
    reveal(State::make_typename);
    let tt = s.builtin(id::TYPENAME);
    let xs = seq![sym];
    assert(s.push_root(sym) =~= s.push_roots(xs)) by {
        assert(s.roots.push(sym) =~= s.roots + xs);
    }
    assert(xs[0] == sym);
    lemma_core_tag(s, id::TYPENAME);
    lemma_alloc_pushed(s, xs, tt, 16);
    let (b, v) = s.push_roots(xs).alloc_object(tt, 16);
    let c = b.pop_roots(1);
    let e = c.with_word(v, 0, sym);
    crate::slots::lemma_empty_places(c, 0, 0);
    if v != NULL {
        assert(c.good(sym) && !c.reaches(sym, v));
        lemma_word_only_at(c, v, 0, sym);
        crate::bytes::lemma_word_read_write(c.data(v), 0, sym);
        crate::bytes::lemma_word_read_other(c.data(v), 0, 4, sym);
        crate::bytes::lemma_word_read_other(c.data(v), 0, 8, sym);
        lemma_fill_name(c, e, v, sym);
        lemma_base_of_kept(c, e);
        lemma_base_trans(s, c, e);
    }
}

// --- layouts ----------------------------------------------------------------

/// Placing a layout keeps a heap in order, and everything good.
#[verifier::rlimit(40)]
pub proof fn lemma_place(s: State, ws: Seq<u32>)
    requires
        s.in_order(),
        ws.len() > 0,
    ensures
        ({
            let (e, off) = s.place_words(ws);
            &&& follows(s, e)
            &&& off < e.region.top
            &&& e == (State { region: e.region, layouts: e.layouts, ..s })
            &&& forall|x: u32| #[trigger] s.good(x) ==> e.good(x)
            &&& off != NULL && s.region.top % 8 == 0 && s.region.top / 8 < s.layouts.len()
                ==> forall|k: int| 0 <= k < ws.len() ==> e.layout_word(off, k) == #[trigger] ws[k]
        }),
{
    reveal(State::in_order);
    reveal(carried);
    reveal(State::place_words);
    let (e, off) = s.place_words(ws);
    crate::slots::lemma_empty_places(s, 0, 0);
    assert(forall|v: u32| #[trigger] e.obj(v) == s.obj(v));
    assert(s.region.top <= e.region.top);
    assert(e.slots_ok()) by {
        assert(e.pages_placed());
        assert(e.objects_placed()) by {
            assert forall|v: u32| #![trigger e.obj(v)] e.obj(v) is Some implies exists|i: int|
                e.holds(i, v) by {
                assert(s.obj(v) is Some);
                let i = choose|i: int| s.holds(i, v);
                assert(e.holds(i, v));
            }
        }
        assert forall|i: int| #![trigger e.pages[i]] 0 <= i < e.pages.len()
            && e.pages[i].in_use implies e.free_list_ok(i) by {
            assert(s.free_list_ok(i));
        }
    }
    assert(like(s, e)) by {
        assert forall|o: u32, k: int|
            o < s.region.top || o == NULL implies #[trigger] e.layout_word(o, k) == s.layout_word(
            o,
            k,
        ) by {
            if o % 8 == 0 && off % 8 == 0 && off != NULL {
                assert(off == s.region.top);
                assert(o / 8 != off / 8);
            }
        }
    }
    assert forall|x: u32| #[trigger] s.good(x) implies e.good(x) by {
        lemma_same_good(s, e, x);
    }
    assert(e.heap_ok()) by {
        assert forall|k: int| 0 <= k < e.remembered.len() implies e.is_marked(
            #[trigger] e.remembered[k],
        ) by {
            assert(s.is_marked(s.remembered[k]));
        }
        assert forall|v: u32| #[trigger]
            e.is_marked(v) && !e.is_old(v) implies e.remembered.contains(v) by {
            assert(s.is_marked(v));
        }
        assert forall|v: u32| #[trigger]
            e.is_marked(v) && !e.remembered.contains(v) implies e.refs_marked(v, e) by {
            assert(s.is_marked(v));
            assert(s.good(v));
            assert(reach_kept(s, e, v)) by {
                assert forall|u: u32| #[trigger] s.reaches(v, u) implies s.kept(e, u) by {
                    lemma_reaches_ends(s, v, u);
                }
            }
            lemma_kept_good(s, e, v);
            lemma_reaches_self(s, v);
            assert(e.refs_of(v) == s.refs_of(v));
            assert(s.refs_marked(v, s));
            assert forall|i: int|
                0 <= i < e.refs_of(v).len() && e.obj(
                    #[trigger] e.refs_of(v)[i],
                ) is Some implies e.is_marked(e.refs_of(v)[i]) by {
                assert(s.obj(s.refs_of(v)[i]) is Some);
                assert(s.is_marked(s.refs_of(v)[i]));
            }
        }
    }
    reveal(State::root_list);
    assert(e.root_list() =~= s.root_list());
    assert forall|r: u32| #[trigger] e.root_list().contains(r) implies e.good(r) by {
        assert(s.good(r));
    }
    assert forall|v: u32| #[trigger] e.is_marked(v) implies e.good(v) by {
        assert(s.is_marked(v));
        assert(s.good(v));
    }
    assert(base_kept(s, e)) by {
        assert forall|r: u32| #[trigger] s.root_list().contains(r) && r
            != NULL implies e.root_list().contains(r) && reach_kept(s, e, r) by {
            assert forall|u: u32| #[trigger] s.reaches(r, u) implies s.kept(e, u) by {
                lemma_reaches_ends(s, r, u);
            }
        }
    }
    lemma_described_kept(s, e);
}

// --- holding values ---------------------------------------------------------

/// Pushing good values keeps a heap in order.
pub proof fn lemma_hold(s: State, xs: Seq<u32>)
    requires
        s.in_order(),
        forall|i: int| 0 <= i < xs.len() ==> s.good(#[trigger] xs[i]),
    ensures
        follows(s, s.push_roots(xs)),
        forall|i: int|
            0 <= i < xs.len() ==> s.push_roots(xs).root_list().contains(#[trigger] xs[i]),
        forall|x: u32| #[trigger] s.good(x) ==> s.push_roots(xs).good(x),
{
    reveal(State::in_order);
    reveal(carried);
    lemma_push_healthy(s, xs);
    lemma_described_kept(s, s.push_roots(xs));
}

pub proof fn lemma_hold_one(s: State, x: u32)
    requires
        s.in_order(),
        s.good(x),
    ensures
        follows(s, s.push_root(x)),
        s.push_root(x).root_list().contains(x),
        s.push_root(x).good(x),
        forall|y: u32| #[trigger] s.good(y) ==> s.push_root(x).good(y),
{
    reveal(State::in_order);
    reveal(carried);
    let xs = seq![x];
    assert(s.push_root(x) =~= s.push_roots(xs)) by {
        assert(s.roots.push(x) =~= s.roots + xs);
    }
    assert(xs[0] == x);
    lemma_hold(s, xs);
}

/// Releasing what was held over `s` keeps a heap in order, and everything good.
pub proof fn lemma_release(s: State, b: State, n: int)
    requires
        s.in_order(),
        b.in_order(),
        base_kept(s, b),
        tables_grow(s, b),
        0 <= n,
        b.roots.len() == s.roots.len() + n,
        b.roots.take(s.roots.len() as int) == s.roots,
    ensures
        follows(s, b.pop_roots(n)),
        b.pop_roots(n).roots == s.roots,
        forall|x: u32| #[trigger] b.good(x) ==> b.pop_roots(n).good(x),
{
    reveal(State::in_order);
    reveal(carried);
    let e = b.pop_roots(n);
    assert(e.roots =~= s.roots);
    assert forall|r: u32| #[trigger] root(e, r) implies b.good(r) by {
        lemma_root(b, r);
        if r != NULL {
            assert forall|x: u32| #[trigger] e.roots.contains(x) implies b.roots.contains(x) by {
                let i = choose|i: int| 0 <= i < e.roots.len() && e.roots[i] == x;
                assert(b.roots[i] == x);
            }
            lemma_root_stays(e, b, r);
        }
    }
    lemma_rerooted(b, e);
    assert(forall|off: u32, k: int| #[trigger] e.layout_word(off, k) == b.layout_word(off, k));
    assert forall|r: u32| #[trigger] s.root_list().contains(r) && r
        != NULL implies e.root_list().contains(r) && reach_kept(s, e, r) by {
        lemma_root(s, r);
        lemma_root(e, r);
        lemma_root_stays(s, e, r);
        assert(b.root_list().contains(r));
        assert forall|u: u32| #[trigger] s.reaches(r, u) implies s.kept(e, u) by {
            assert(s.kept(b, u));
            assert(e.obj(u) == b.obj(u));
        }
    }
}

// --- struct types -----------------------------------------------------------

/// Interning the names of fields keeps a heap in order; the symbols are roots.
pub proof fn lemma_intern_names(s: State, fields: Seq<(Seq<u8>, u32)>, n: int)
    requires
        s.in_order(),
    ensures
        ({
            let (e, syms) = s.intern_names(fields, n);
            &&& follows(s, e)
            &&& tables_stay(s, e)
            &&& tables_grow(s, e)
            &&& forall|i: int| 0 <= i < syms.len() ==> e.good(#[trigger] syms[i])
            &&& forall|i: int|
                0 <= i < syms.len() && syms[i] != NULL ==> e.root_list().contains(
                    #[trigger] syms[i],
                )
        }),
    decreases n,
{
    reveal(State::in_order);
    reveal(carried);
    if n <= 0 || n > fields.len() {
        lemma_follows_refl(s);
    } else {
        lemma_intern_names(s, fields, n - 1);
        let (a, rest) = s.intern_names(fields, n - 1);
        lemma_intern(a, fields[n - 1].0);
        let (e, sym) = a.intern(a.builtin(id::SYMBOL), fields[n - 1].0);
        lemma_intern_grows(a, fields[n - 1].0);
        lemma_follows_trans(s, a, e);
        let syms = rest.push(sym);
        assert forall|i: int| 0 <= i < syms.len() implies e.good(#[trigger] syms[i]) && (syms[i]
            != NULL ==> e.root_list().contains(syms[i])) by {
            if i < rest.len() && syms[i] != NULL {
                assert(a.root_list().contains(rest[i]));
                assert(e.root_list().contains(syms[i]));
            }
        }
    }
}

/// Interning only adds to the table of symbols.
pub proof fn lemma_intern_grows(s: State, text: Seq<u8>)
    ensures
        tables_grow(s, s.intern(s.builtin(id::SYMBOL), text).0),
{
    reveal(State::intern);
    let n = 4 + text.len() as int;
    let sy = s.builtin(id::SYMBOL);
    crate::object::lemma_alloc_object_keeps(s, sy, n);
    let (a, v) = s.alloc_object(sy, n);
    crate::symbol::lemma_fill_keeps(a.with_word(v, 0, text.len() as u32), v, 4, text, 0);
}

/// The state of a definition before the type is made, and what it is made of.
pub open spec fn prepared(
    s: State,
    name: Seq<u8>,
    super_: u32,
    fields: Seq<(Seq<u8>, u32)>,
    mutabl: bool,
) -> (State, u32, u32, u32, u32) {
    let fts = fields.map_values(|f: (Seq<u8>, u32)| f.1);
    let s0 = s.push_roots(fts.push(super_));
    let (s1, sym) = s0.intern(s0.builtin(id::SYMBOL), name);
    let (s2, tn) = s1.make_typename(s1.builtin(id::TYPENAME), sym);
    let s3 = s2.push_root(tn).with_word(
        tn,
        12,
        if mutabl {
            1
        } else {
            0
        },
    );
    let l = s3.field_layout(fts);
    let (s4, syms) = s3.intern_names(fields, fields.len() as int);
    let (s5, names) = s4.make_svec(syms);
    let (s6, types) = s5.push_root(names).set_ref(tn, 8, names).make_svec(fts);
    let (s7, layout) = s6.push_root(types).struct_layout(l);
    (s7, tn, types, layout, l.size)
}

/// What is loose is reached from no root.
pub proof fn lemma_loose_unrooted(s: State, v: u32)
    requires
        loose(s, v),
    ensures
        !s.rooted(v),
{
    if s.rooted(v) {
        let r = choose|r: u32| s.root_list().contains(r) && #[trigger] s.reaches(r, v);
        assert(s.live(v));
    }
}

/// What is reached from no root was reached from none before.
pub proof fn lemma_unrooted(s: State, e: State, v: u32)
    requires
        s.in_order(),
        follows(s, e),
        !e.rooted(v),
    ensures
        !s.rooted(v),
{
    reveal(State::in_order);
    reveal(carried);
    crate::slots::lemma_empty_places(s, 0, 0);
    crate::slots::lemma_empty_places(e, 0, 0);
    if s.rooted(v) {
        let r = choose|r: u32| s.root_list().contains(r) && #[trigger] s.reaches(r, v);
        lemma_reaches_ends(s, r, v);
        lemma_kept_good(s, e, r);
        assert(e.reaches(r, v));
    }
}

/// A store into an object that no root of `s` reached keeps what they reach.
proof fn lemma_store_apart(s: State, b: State, a: State, v: u32)
    requires
        base_kept(s, b),
        !s.rooted(v),
        rewritten(b, a, v),
        a.root_list() == b.root_list(),
    ensures
        base_kept(s, a),
{
    assert(forall|off: u32, k: int| #[trigger] a.layout_word(off, k) == b.layout_word(off, k));
    assert forall|r: u32| #[trigger] s.root_list().contains(r) && r
        != NULL implies a.root_list().contains(r) && reach_kept(s, a, r) by {
        assert forall|u: u32| #[trigger] s.reaches(r, u) implies s.kept(a, u) by {
            assert(s.rooted(u));
            assert(s.kept(b, u));
            assert(a.data(u) == b.data(u) && a.tag(u) == b.tag(u));
            assert(a.obj(u) is Some);
        }
    }
}

/// A name object that was made and held.
#[verifier::rlimit(40)]
proof fn lemma_named(s1: State, sym: u32, m: u32)
    requires
        s1.in_order(),
        s1.good(sym),
    ensures
        ({
            let (s2, tn) = s1.make_typename(s1.builtin(id::TYPENAME), sym);
            let s3 = s2.push_root(tn).with_word(tn, 12, m);
            &&& follows(s1, s3)
            &&& tables_stay(s1.push_root(tn), s3)
            &&& s3.syms == s1.syms
            &&& s3.root_list().contains(tn)
            &&& !s1.rooted(tn)
            &&& tn != NULL ==> s3.tag(tn) == s3.builtin(id::TYPENAME) && s3.data(tn).len() == 16
        }),
{
    reveal(State::in_order);
    reveal(carried);
    let (s2, tn) = s1.make_typename(s1.builtin(id::TYPENAME), sym);
    lemma_typename(s1, sym);
    let a = s2.with_word(tn, 12, m);
    crate::slots::lemma_empty_places(s2, 0, 0);
    if tn != NULL {
        lemma_word_only_at(s2, tn, 12, m);
        crate::bytes::lemma_word_read_other(s2.data(tn), 12, 4, m);
        crate::bytes::lemma_word_read_other(s2.data(tn), 12, 8, m);
        crate::bytes::lemma_word_read_other(s2.data(tn), 12, 0, m);
        lemma_fill_name(s2, a, tn, sym);
        lemma_loose_unrooted(s2, tn);
        lemma_unrooted(s1, s2, tn);
        lemma_base_of_kept(s2, a);
        lemma_base_trans(s1, s2, a);
    }
    assert(!s1.rooted(tn)) by {
        if tn == NULL && s1.rooted(tn) {
            crate::slots::lemma_empty_places(s1, 0, 0);
            let r = choose|r: u32| s1.root_list().contains(r) && #[trigger] s1.reaches(r, tn);
            lemma_reaches_ends(s1, r, tn);
        }
    }
    assert(follows(s1, a));
    let s3 = s2.push_root(tn).with_word(tn, 12, m);
    assert(s3 =~= a.push_root(tn));
    lemma_hold_one(a, tn);
    lemma_follows_trans(s1, a, s3);
}

/// The names of the fields, stored in the name object.
#[verifier::rlimit(40)]
proof fn lemma_names_stored(s: State, s3: State, tn: u32, fields: Seq<(Seq<u8>, u32)>)
    requires
        s.in_order(),
        follows(s, s3),
        !s.rooted(tn),
        s3.root_list().contains(tn),
        tn != NULL ==> s3.tag(tn) == s3.builtin(id::TYPENAME) && s3.data(tn).len() == 16,
    ensures
        ({
            let (s4, syms) = s3.intern_names(fields, fields.len() as int);
            let (s5, names) = s4.make_svec(syms);
            let a = s5.push_root(names).set_ref(tn, 8, names);
            &&& follows(s, a)
            &&& tables_stay(s3.push_root(names), a)
            &&& tables_grow(s3, a)
            &&& forall|r: u32| #[trigger]
                s3.root_list().contains(r) && r != NULL ==> a.root_list().contains(r)
        }),
{
    reveal(State::in_order);
    reveal(carried);
    let n = fields.len() as int;
    let (s4, syms) = s3.intern_names(fields, n);
    lemma_intern_names(s3, fields, n);
    let (s5, names) = s4.make_svec(syms);
    lemma_make_svec(s4, syms);
    lemma_follows_trans(s3, s4, s5);
    let b = s5.push_root(names);
    lemma_hold_one(s5, names);
    lemma_follows_trans(s3, s5, b);
    lemma_follows_trans(s, s3, b);
    let a = b.set_ref(tn, 8, names);
    crate::slots::lemma_empty_places(b, 0, 0);
    if tn == NULL {
        assert(a =~= b);
    } else {
        lemma_root_kept(s3, b, tn);
        assert(b.root_list().contains(tn));
        lemma_reaches_self(b, tn);
        assert(b.live(tn));
        lemma_store_plain(b, tn, 3, 2, names);
        lemma_store_apart(s, b, a, tn);
    }
}

/// Roots stay roots, and are good.
pub proof fn lemma_root_follows(s: State, e: State, r: u32)
    requires
        s.in_order(),
        follows(s, e),
        s.root_list().contains(r),
    ensures
        r != NULL ==> e.root_list().contains(r),
        e.good(r),
        e.in_order(),
        s.good(r),
        s.kept(e, r) || r == NULL,
{
    reveal(State::in_order);
    reveal(carried);
    if r != NULL {
        lemma_root_kept(s, e, r);
    }
}

/// The region has room for the null reference at least.
pub proof fn lemma_top(s: State)
    requires
        s.in_order(),
    ensures
        8 <= s.region.top,
        s.obj(NULL) is None,
{
    reveal(State::in_order);
    crate::slots::lemma_empty_places(s, 0, 0);
}

/// Roots are good.
pub proof fn lemma_root_good(s: State, r: u32)
    requires
        s.in_order(),
        s.root_list().contains(r),
    ensures
        s.good(r),
{
    reveal(State::in_order);
}

/// A vector of good values keeps a heap in order and is good.
pub proof fn lemma_svec(s: State, elems: Seq<u32>)
    requires
        s.in_order(),
        forall|i: int| 0 <= i < elems.len() ==> s.good(#[trigger] elems[i]),
    ensures
        ({
            let (e, v) = s.make_svec(elems);
            &&& follows(s, e)
            &&& e.in_order()
            &&& tables_stay(s, e)
            &&& e.syms == s.syms
            &&& e.layouts == s.layouts
            &&& e.good(v)
            &&& v != NULL ==> loose(e, v) && e.svec_seq(v) == elems && e.tag(v) == e.builtin(
                id::SVEC,
            )
        }),
{
    reveal(State::in_order);
    reveal(carried);
    lemma_make_svec(s, elems);
}

/// What a definition is made of is held, and the heap is in order.
proof fn lemma_prepared(
    s: State,
    name: Seq<u8>,
    super_: u32,
    fields: Seq<(Seq<u8>, u32)>,
    mutabl: bool,
)
    requires
        s.in_order(),
        s.good(super_),
        forall|i: int| 0 <= i < fields.len() ==> s.good((#[trigger] fields[i]).1),
    ensures
        ({
            let (e, tn, types, layout, size) = prepared(s, name, super_, fields, mutabl);
            &&& follows(s, e)
            &&& tables_stay(State { roots: e.roots, ..s }, e)
            &&& tables_grow(s, e)
            &&& e.roots.len() == s.roots.len() + fields.len() + 4
            &&& e.roots.take(s.roots.len() as int) == s.roots
            &&& tn != NULL ==> e.root_list().contains(tn)
            &&& types != NULL ==> e.root_list().contains(types)
            &&& super_ != NULL ==> e.root_list().contains(super_)
            &&& layout < e.region.top
            &&& fields.len() == 0 ==> layout == NULL
            &&& !s.rooted(tn)
        }),
{
    let fts = fields.map_values(|f: (Seq<u8>, u32)| f.1);
    let xs = fts.push(super_);
    assert forall|i: int| 0 <= i < xs.len() implies s.good(#[trigger] xs[i]) by {
        if i < fields.len() {
            assert(xs[i] == fields[i].1);
        }
    }
    let s0 = s.push_roots(xs);
    lemma_hold(s, xs);
    assert(xs[fields.len() as int] == super_);
    assert(s0.root_list().contains(super_));
    let (s1, sym) = s0.intern(s0.builtin(id::SYMBOL), name);
    lemma_intern(s0, name);
    lemma_intern_grows(s0, name);
    lemma_follows_trans(s, s0, s1);
    let m: u32 = if mutabl {
        1
    } else {
        0
    };
    let (s2, tn) = s1.make_typename(s1.builtin(id::TYPENAME), sym);
    let s3 = s2.push_root(tn).with_word(tn, 12, m);
    lemma_named(s1, sym, m);
    lemma_follows_trans(s, s1, s3);
    lemma_unrooted(s, s1, tn);
    let l = s3.field_layout(fts);
    let (s4, syms) = s3.intern_names(fields, fields.len() as int);
    let (s5, names) = s4.make_svec(syms);
    let a = s5.push_root(names).set_ref(tn, 8, names);
    lemma_names_stored(s, s3, tn, fields);
    assert forall|i: int| 0 <= i < fts.len() implies a.good(#[trigger] fts[i]) by {
        let x = fts[i];
        assert(xs[i] == x);
        lemma_root_follows(s0, s1, x);
        if x != NULL {
            lemma_root_follows(s1, s3, x);
            lemma_root_good(a, x);
        }
    }
    let (s6, types) = a.make_svec(fts);
    lemma_svec(a, fts);
    lemma_follows_trans(s, a, s6);
    let b = s6.push_root(types);
    lemma_hold_one(s6, types);
    lemma_follows_trans(s, s6, b);
    if super_ != NULL {
        lemma_root_follows(s0, s1, super_);
        lemma_root_follows(s1, s3, super_);
        lemma_root_follows(a, s6, super_);
        lemma_root_follows(s6, b, super_);
    }
    if tn != NULL {
        lemma_root_follows(a, s6, tn);
        lemma_root_follows(s6, b, tn);
    }
    let (s7, layout) = b.struct_layout(l);
    if l.descs.len() != 0 {
        let ws = seq![l.ptrs.len() as u32] + l.ptrs + crate::structs::desc_words(
            l.descs,
            l.descs.len() as int,
        );
        lemma_place(b, ws);
        lemma_follows_trans(s, b, s7);
        if super_ != NULL {
            lemma_root_follows(b, s7, super_);
        }
        if tn != NULL {
            lemma_root_follows(b, s7, tn);
        }
        if types != NULL {
            lemma_root_follows(b, s7, types);
        }
    }
    assert(s7.roots =~= s.roots + xs.push(tn).push(names).push(types));
    assert(s7.roots.take(s.roots.len() as int) =~= s.roots);
    if fields.len() == 0 {
        assert(l.descs =~= Seq::empty());
    }
    lemma_top(s7);
    assert(layout < s7.region.top);
    assert(tables_grow(s, s7));
}

/// The data type of a definition.
pub open spec fn defined(
    tn: u32,
    super_: u32,
    types: u32,
    layout: u32,
    size: u32,
    n: u32,
) -> DataType {
    DataType {
        name: tn,
        super_,
        parameters: NULL,
        types,
        instance: NULL,
        layout,
        size,
        nfields: n,
        flags: 0,
    }
}

/// Filling in a loose data type.
#[verifier::rlimit(60)]
#[verifier::spinoff_prover]
pub proof fn lemma_write_type(a: State, t: u32, d: DataType)
    requires
        a.in_order(),
        loose(a, t),
        a.tag(t) == a.builtin(id::DATATYPE),
        a.data(t).len() == DT_SIZE,
        d.parameters == NULL || a.tag(d.parameters) == a.builtin(id::SVEC),
        a.good(d.parameters) && !a.reaches(d.parameters, t),
        d.instance == NULL,
        a.good(d.name) && !a.reaches(d.name, t),
        a.good(d.super_) && !a.reaches(d.super_, t),
        a.good(d.types) && !a.reaches(d.types, t),
        !a.reaches(a.builtin(id::DATATYPE), t),
        d.layout < a.region.top,
    ensures
        ({
            let e = a.write_dt(t, d);
            &&& follows(a, e)
            &&& e == (State { objs: e.objs, ..a })
            &&& e.good(t)
            &&& loose(e, t)
            &&& e.tag(t) == e.builtin(id::DATATYPE)
            &&& e.data(t).len() == DT_SIZE
            &&& e.name_of(t) == d.name
            &&& e.supertype(t) == d.super_
            &&& e.parameters(t) == d.parameters
            &&& e.layout(t) == d.layout
            &&& e.refs_of(t) == seq![e.tag(t), d.name, d.super_, d.parameters, d.types, NULL]
            &&& forall|r: u32| #[trigger] e.refs_of(t).contains(r) ==> !e.reaches(r, t)
        }),
{
    reveal(State::in_order);
    reveal(carried);
    let ws = dt_words(d);
    let e = a.write_dt(t, d);
    lemma_write_dt(a, t, d);
    crate::slots::lemma_empty_places(a, 0, 0);
    lemma_core_tag(a, id::DATATYPE);
    lemma_write_words(a, t, 0, ws, 0);
    assert forall|i: int| 0 <= i < 5 implies a.good(#[trigger] ws[i]) && !a.reaches(ws[i], t) by {
        if ws[i] == NULL && a.reaches(ws[i], t) {
            lemma_reaches_ends(a, ws[i], t);
        }
    }
    lemma_fill_type(a, e, t, ws);
    lemma_base_of_kept(a, e);
    assert(e.refs_of(t) =~= seq![e.tag(t), d.name, d.super_, d.parameters, d.types, NULL]);
    assert(e.word(t, 0 + 4 * 1int) == ws[1]);
    assert forall|r: u32| #[trigger] e.refs_of(t).contains(r) implies !e.reaches(r, t) by {
        let k = choose|k: int| 0 <= k < e.refs_of(t).len() && e.refs_of(t)[k] == r;
        if k > 0 {
            assert(r == ws[k - 1]);
        }
    }
}

/// A new object, and the roots beside it.
pub proof fn lemma_beside(s: State, t: u32, size: int)
    requires
        s.in_order(),
        0 <= size,
    ensures
        ({
            let (e, v) = s.alloc_object(t, size);
            &&& follows(s, e)
            &&& tables_stay(s, e)
            &&& e.syms == s.syms
            &&& e.layouts == s.layouts
            &&& s.region.top <= e.region.top
            &&& v != NULL ==> {
                &&& loose(e, v)
                &&& e.tag(v) == t - t % 4
                &&& e.data(v) == crate::bytes::zeros(size as nat)
            }
            &&& forall|r: u32| #[trigger]
                s.root_list().contains(r) ==> e.good(r) && (v != NULL ==> !e.reaches(r, v))
            &&& v != NULL ==> !e.reaches(NULL, v)
        }),
{
    reveal(State::in_order);
    reveal(carried);
    lemma_fresh(s, t, size);
    let (e, v) = s.alloc_object(t, size);
    crate::slots::lemma_empty_places(e, 0, 0);
    if e.reaches(NULL, v) {
        lemma_reaches_ends(e, NULL, v);
    }
}

/// The core types that data types are described by.
pub proof fn lemma_core(s: State)
    requires
        s.in_order(),
    ensures
        s.builtin(id::DATATYPE) != NULL,
        s.builtin(id::DATATYPE) % 4 == 0,
        s.root_list().contains(s.builtin(id::DATATYPE)),
        s.builtin(id::SVEC) != NULL,
        s.root_list().contains(s.builtin(id::SVEC)),
        s.shared_name(3) != NULL,
        s.root_list().contains(s.shared_name(3)),
        s.described(),
        s.healthy(),
{
    reveal(State::in_order);
    lemma_core_tag(s, id::DATATYPE);
    crate::health::lemma_builtin_is_root(s, id::DATATYPE);
    crate::health::lemma_builtin_is_root(s, id::SVEC);
}

/// A new type on a heap that holds what it is made of.
proof fn lemma_new_struct_type(
    s: State,
    tn: u32,
    super_: u32,
    types: u32,
    layout: u32,
    size: u32,
    n: u32,
)
    requires
        s.in_order(),
        tn == NULL || s.root_list().contains(tn),
        super_ == NULL || s.root_list().contains(super_),
        types == NULL || s.root_list().contains(types),
        layout < s.region.top,
    ensures
        ({
            let (a, t) = s.alloc_object(s.builtin(id::DATATYPE), DT_SIZE as int);
            let e = a.write_dt(t, defined(tn, super_, types, layout, size, n));
            &&& follows(s, e)
            &&& tables_stay(s, e)
            &&& e.syms == s.syms
            &&& e.good(t)
            &&& t != NULL ==> {
                &&& loose(e, t)
                &&& e.tag(t) == e.builtin(id::DATATYPE)
                &&& e.data(t).len() == DT_SIZE
                &&& e.name_of(t) == tn
                &&& e.supertype(t) == super_
                &&& e.parameters(t) == NULL
                &&& e.layout(t) == layout
                &&& e.refs_of(t) == seq![e.tag(t), tn, super_, NULL, types, NULL]
                &&& forall|r: u32| #[trigger] e.refs_of(t).contains(r) ==> !e.reaches(r, t)
            }
        }),
{
    let dt = s.builtin(id::DATATYPE);
    assert(dt % 4 == 0 && s.root_list().contains(dt)) by {
        lemma_core(s);
    }
    lemma_beside(s, dt, DT_SIZE as int);
    let (a, t) = s.alloc_object(dt, DT_SIZE as int);
    let d = defined(tn, super_, types, layout, size, n);
    let e = a.write_dt(t, d);
    if t == NULL {
        lemma_top(a);
        assert(e == a);
    } else {
        lemma_write_type(a, t, d);
        lemma_follows_trans(s, a, e);
    }
}

/// The type of a definition keeps a heap in order.
proof fn lemma_define_type(
    s: State,
    name: Seq<u8>,
    super_: u32,
    fields: Seq<(Seq<u8>, u32)>,
    mutabl: bool,
)
    requires
        s.in_order(),
        s.good(super_),
        forall|i: int| 0 <= i < fields.len() ==> s.good((#[trigger] fields[i]).1),
    ensures
        ({
            let (e, t) = s.define_type(name, super_, fields, mutabl);
            let (p, tn, types, layout, size) = prepared(s, name, super_, fields, mutabl);
            &&& follows(s, e)
            &&& tables_stay(State { roots: e.roots, ..s }, e)
            &&& tables_grow(s, e)
            &&& e.roots.len() == s.roots.len() + fields.len() + 4
            &&& e.roots.take(s.roots.len() as int) == s.roots
            &&& !s.rooted(tn)
            &&& e.good(t)
            &&& t != NULL ==> {
                &&& loose(e, t)
                &&& e.tag(t) == e.builtin(id::DATATYPE)
                &&& e.data(t).len() == DT_SIZE
                &&& e.name_of(t) == tn
                &&& e.supertype(t) == super_
                &&& e.parameters(t) == NULL
                &&& fields.len() == 0 ==> e.layout(t) == NULL
                &&& e.refs_of(t) == seq![e.tag(t), tn, super_, NULL, types, NULL]
                &&& forall|r: u32| #[trigger] e.refs_of(t).contains(r) ==> !e.reaches(r, t)
            }
        }),
{
    lemma_prepared(s, name, super_, fields, mutabl);
    let (p, tn, types, layout, size) = prepared(s, name, super_, fields, mutabl);
    let n = fields.len() as u32;
    lemma_new_struct_type(p, tn, super_, types, layout, size, n);
    let (a, t) = p.alloc_object(p.builtin(id::DATATYPE), DT_SIZE as int);
    let e = a.write_dt(t, defined(tn, super_, types, layout, size, n));
    assert(s.define_type(name, super_, fields, mutabl) == (e, t));
    lemma_follows_trans(s, p, e);
}

// --- the instance of a singleton type ---------------------------------------

/// Whether nothing live but itself reaches `v`.
pub open spec fn own(s: State, v: u32) -> bool {
    forall|u: u32| #[trigger] s.live(u) && s.reaches(u, v) ==> u == v
}

/// A loose object whose references do not lead back to it is its own once it is held.
proof fn lemma_own_held(s: State, t: u32)
    requires
        s.in_order(),
        loose(s, t),
        s.good(t),
        forall|r: u32| #[trigger] s.refs_of(t).contains(r) ==> !s.reaches(r, t),
    ensures
        own(s.push_root(t), t),
{
    reveal(State::in_order);
    let b = s.push_root(t);
    assert(b =~= s.push_roots(seq![t])) by {
        assert(s.roots.push(t) =~= s.roots + seq![t]);
    }
    assert forall|r: u32| #[trigger] root(b, r) implies s.good(r) by {
        if r != t {
            lemma_push_root_kinds(s, t, r);
            lemma_root(s, r);
        }
    }
    lemma_rerooted(s, b);
    assert forall|u: u32| #[trigger] b.live(u) && b.reaches(u, t) implies u == t by {
        let r = choose|r: u32|
            (b.root_list().contains(r) || b.is_marked(r)) && #[trigger] b.reaches(r, u);
        lemma_reaches_trans(b, r, u, t);
        if b.root_list().contains(r) && r == t {
            assert(s.reaches(t, u));
            crate::health::lemma_good_closed(s, t, u);
            assert(s.reaches(u, t));
            if u != t {
                crate::uniquing::lemma_reaches_by(s, t, u);
                let x = choose|x: u32| s.refs_of(t).contains(x) && #[trigger] s.reaches(x, u);
                lemma_reaches_trans(s, x, u, t);
            }
        } else {
            if b.root_list().contains(r) {
                assert(root(b, r));
                lemma_push_root_kinds(s, t, r);
                lemma_root(s, r);
            } else {
                assert(s.is_marked(r));
            }
            assert(s.good(r));
            assert(s.reaches(r, t));
            assert(s.live(t));
        }
    }
}

proof fn lemma_push_root_kinds(s: State, t: u32, r: u32)
    requires
        root(s.push_root(t), r),
        r != t,
    ensures
        root(s, r),
{
    let b = s.push_root(t);
    if b.roots.contains(r) {
        let i = choose|i: int| 0 <= i < b.roots.len() && b.roots[i] == r;
        assert(s.roots[i] == r);
    }
}

/// What follows by allocation is as much its own as it was.
proof fn lemma_own_steady(s: State, e: State, v: u32)
    requires
        own(s, v),
        steady(s, e),
    ensures
        own(e, v),
{
    assert forall|u: u32| #[trigger] e.live(u) && e.reaches(u, v) implies u == v by {
        assert(s.live(u) && s.reaches(u, v));
    }
}

/// A type whose instances hold nothing.
pub open spec fn bare(s: State, t: u32) -> bool {
    &&& s.tag(t) == s.builtin(id::DATATYPE)
    &&& s.layout(t) == NULL
    &&& s.name_of(t) != s.shared_name(3)
    &&& t != s.builtin(id::SVEC)
    &&& t != s.builtin(id::DATATYPE)
    &&& s.parameters(t) == NULL
    &&& s.data(t).len() == DT_SIZE
}

/// The instance of a bare type references the type alone.
proof fn lemma_bare_refs(s: State, v: u32)
    requires
        bare(s, s.tag(v)),
        s.tag(v) != NULL,
    ensures
        s.refs_of(v) == seq![s.tag(v)],
        s.holds_refs(s.tag(v), 0),
        forall|x: u32| #[trigger] s.reads(v, x) ==> x == v || x == s.tag(v),
{
    lemma_plain_refs(s, v, 0);
    assert(s.refs_of(v) =~= seq![s.tag(v)]);
}

/// Storing the instance of a bare type changes the references of the type alone.
#[verifier::rlimit(40)]
#[verifier::spinoff_prover]
proof fn lemma_instance_refs(c: State, t: u32, v: u32, u: u32)
    requires
        c.in_order(),
        c.live(t),
        own(c, t),
        bare(c, t),
        v == NULL || (c.obj(v) is Some && c.tag(v) == t),
        held(c, v, u),
        u != t,
    ensures
        c.set_ref(t, 16, v).refs_of(u) == c.refs_of(u),
{
    reveal(State::in_order);
    let e = c.set_ref(t, 16, v);
    crate::slots::lemma_empty_places(c, 0, 0);
    lemma_live_good(c, t);
    lemma_set_ref(c, t, 16, v);
    if c.reaches(v, u) && u != v {
        lemma_reaches_ends(c, v, u);
        lemma_bare_refs(c, v);
        crate::uniquing::lemma_reaches_by(c, v, u);
        let r = choose|r: u32| c.refs_of(v).contains(r) && #[trigger] c.reaches(r, u);
        assert(r == t);
        lemma_live_closed(c, t, u);
    }
    if c.live(u) {
        lemma_live_good(c, u);
        assert forall|x: u32| #[trigger] c.reads(u, x) implies c.tag(x) == e.tag(x) && c.data(x)
            == e.data(x) by {
            if x == t {
                assert(c.reaches(u, t));
                assert(u == t);
            }
            assert(e.tag(x) == c.tag(x));
            assert(e.data(x) == c.data(x));
        }
        lemma_local_refs(c, e, u);
    } else {
        lemma_reaches_ends(c, v, u);
        assert(u == v);
        assert(e.word(t, 20) == c.word(t, 20));
        assert(e.word(t, 0) == c.word(t, 0));
        assert(e.word(t, 8) == c.word(t, 8));
        assert(e.tag(v) == t);
        lemma_bare_refs(c, v);
        lemma_bare_refs(e, v);
    }
}

/// Storing the instance of a bare type keeps a heap in order.
#[verifier::rlimit(60)]
#[verifier::spinoff_prover]
proof fn lemma_store_instance(c: State, t: u32, v: u32)
    requires
        c.in_order(),
        c.live(t),
        own(c, t),
        bare(c, t),
        v == NULL || (c.obj(v) is Some && c.tag(v) == t),
        c.good(v),
        t != c.builtin(id::TYPENAME) && t != c.builtin(id::SYMBOL) && t != c.builtin(id::MODULE),
    ensures
        ({
            let e = c.set_ref(t, 16, v);
            &&& e.in_order()
            &&& rewritten(c, e, t)
            &&& e.root_list() == c.root_list()
            &&& e == (State { objs: e.objs, remembered: e.remembered, ..c })
            &&& e.good(t)
            &&& e.good(v)
            &&& e.word(t, 16) == v
            &&& e.word(t, 4) == c.word(t, 4)
        }),
{
    reveal(State::in_order);
    let e = c.set_ref(t, 16, v);
    crate::slots::lemma_empty_places(c, 0, 0);
    lemma_live_good(c, t);
    lemma_set_ref(c, t, 16, v);
    let dt = c.builtin(id::DATATYPE);
    let tn = c.builtin(id::TYPENAME);
    let sy = c.builtin(id::SYMBOL);
    let mo = c.builtin(id::MODULE);
    assert(e.described()) by {
        assert(e.data(dt) == c.data(dt) && e.data(tn) == c.data(tn) && e.data(sy) == c.data(sy)
            && e.data(mo) == c.data(mo));
        crate::writes::lemma_holds_same(c, e, dt, 5);
        crate::writes::lemma_holds_same(c, e, tn, 3);
        crate::writes::lemma_holds_same(c, e, sy, 0);
        crate::writes::lemma_holds_same(c, e, mo, 3);
    }
    assert forall|u: u32| held(c, v, u) && u != t implies #[trigger] e.refs_of(u) == c.refs_of(
        u,
    ) by {
        lemma_instance_refs(c, t, v, u);
    }
    assert forall|u: u32| u != t && c.is_marked(u) implies #[trigger] e.refs_of(u) == c.refs_of(
        u,
    ) by {
        lemma_reaches_self(c, u);
        assert(c.live(u));
        assert(held(c, v, u));
    }
    lemma_plain_refs(c, t, 5);
    lemma_plain_refs(e, t, 5);
    assert forall|x: u32| #[trigger] e.refs_of(t).contains(x) implies x == v || c.refs_of(
        t,
    ).contains(x) by {
        let j = choose|j: int| 0 <= j < e.refs_of(t).len() && e.refs_of(t)[j] == x;
        if j == 0 {
            assert(c.refs_of(t)[0] == x);
        } else if j - 1 != 4 {
            assert(e.word(t, 4 * (j - 1)) == c.word(t, 4 * (j - 1)));
            assert(c.refs_of(t)[j] == x);
        } else {
            assert(e.word(t, 4 * 4int) == v);
        }
    }
    assert forall|k: int| #![trigger e.refs_of(t)[k]] 0 <= k < e.refs_of(t).len() implies e.refs_of(
        t,
    )[k] == v || c.refs_of(t).contains(e.refs_of(t)[k]) by {
        assert(e.refs_of(t).contains(e.refs_of(t)[k]));
    }
    law_store_keeps_heap(c, t, 16, v);
    assert(e.typed(t)) by {
        assert(e.word(t, 20) == c.word(t, 20));
        assert(e.word(t, 8) == c.word(t, 8));
    }
    lemma_store_healthy(c, e, t, v);
    assert(held(c, v, t));
}

/// The instance that a singleton type is given keeps a heap in order.
#[verifier::rlimit(40)]
proof fn lemma_singleton(s: State, a: State, t: u32)
    requires
        s.in_order(),
        follows(s, a),
        t != NULL ==> {
            &&& loose(a, t)
            &&& a.good(t)
            &&& bare(a, t)
            &&& forall|r: u32| #[trigger] a.refs_of(t).contains(r) ==> !a.reaches(r, t)
        },
    ensures
        ({
            let (c, v) = a.push_root(t).alloc_object(t, 0);
            let e = c.set_ref(t, 16, v);
            &&& follows(s, e)
            &&& tables_stay(a.push_root(t), e)
            &&& e.syms == a.syms
            &&& e.good(t)
            &&& t != NULL ==> {
                &&& e.good(v)
                &&& e.word(t, 16) == v
                &&& e.word(t, 4) == a.word(t, 4)
                &&& v != NULL ==> e.tag(v) == t && v != t
            }
        }),
{
    let b = a.push_root(t);
    lemma_top(a);
    lemma_hold_one(a, t);
    lemma_follows_trans(s, a, b);
    lemma_beside(b, t, 0);
    let (c, v) = b.alloc_object(t, 0);
    lemma_follows_trans(s, b, c);
    lemma_root_follows(b, c, t);
    let e = c.set_ref(t, 16, v);
    if t == NULL {
        lemma_top(c);
        assert(e == c) by {
            lemma_no_store(c, 16, v);
        }
    } else {
        lemma_own_held(a, t);
        lemma_held_bare(a, b, c, t, v);
        lemma_store_instance(c, t, v);
        lemma_loose_unrooted(a, t);
        lemma_unrooted(s, a, t);
        reveal(carried);
        lemma_store_apart(s, c, e, t);
    }
}

/// Nothing is stored into the null reference.
pub proof fn lemma_no_store(s: State, i: int, v: u32)
    requires
        s.obj(NULL) is None,
    ensures
        s.set_ref(NULL, i, v) == s,
{
}

/// The type and its new instance, before the one is stored in the other.
proof fn lemma_held_bare(a: State, b: State, c: State, t: u32, v: u32)
    requires
        a.in_order(),
        t != NULL,
        loose(a, t),
        bare(a, t),
        b == a.push_root(t),
        b.in_order(),
        b.root_list().contains(t),
        own(b, t),
        (c, v) == b.alloc_object(t, 0),
        follows(b, c),
    ensures
        c.live(t),
        own(c, t),
        bare(c, t),
        v == NULL || (c.obj(v) is Some && c.tag(v) == t && v != t),
        c.good(v),
        c.word(t, 4) == a.word(t, 4),
        t != c.builtin(id::TYPENAME) && t != c.builtin(id::SYMBOL) && t != c.builtin(id::MODULE),
{
    lemma_not_core(a, t, id::TYPENAME);
    lemma_not_core(a, t, id::SYMBOL);
    lemma_not_core(a, t, id::MODULE);
    lemma_held_type(a, b, c, t, v);
    lemma_beside(b, t, 0);
    if v != NULL {
        lemma_new_instance(c, t, v);
    }
}

/// The type beside its new instance is as it was.
#[verifier::rlimit(60)]
#[verifier::spinoff_prover]
proof fn lemma_held_type(a: State, b: State, c: State, t: u32, v: u32)
    requires
        a.in_order(),
        t != NULL,
        loose(a, t),
        bare(a, t),
        b == a.push_root(t),
        b.in_order(),
        b.root_list().contains(t),
        own(b, t),
        (c, v) == b.alloc_object(t, 0),
        follows(b, c),
    ensures
        c.live(t),
        own(c, t),
        bare(c, t),
        c.word(t, 4) == a.word(t, 4),
        c.builtins == a.builtins,
        t % 4 == 0,
        c.in_order(),
{
    lemma_root_follows(b, c, t);
    lemma_beside(b, t, 0);
    assert(c.in_order());
    reveal(State::in_order);
    crate::slots::lemma_empty_places(a, 0, 0);
    law_alloc_keeps_rooted(b, t, 0);
    lemma_own_steady(b, c, t);
    lemma_reaches_self(c, t);
    assert(c.live(t));
    assert(b.obj(t) == a.obj(t));
    assert(b.has_slot(t));
    assert(c.builtins == a.builtins);
    assert(bare(c, t));
}

/// A new instance of a type without fields refers to nothing but its type.
proof fn lemma_new_instance(c: State, t: u32, v: u32)
    requires
        c.in_order(),
        t != NULL,
        c.good(t),
        bare(c, t),
        v != NULL,
        c.obj(v) is Some,
        c.tag(v) == t,
        !c.reaches(t, v),
    ensures
        v != t,
        c.good(v),
{
    lemma_reaches_self(c, t);
    lemma_bare_refs(c, v);
    lemma_leaf(c, v);
}

/// What is loose is no core type.
proof fn lemma_not_core(s: State, t: u32, i: u32)
    requires
        s.in_order(),
        loose(s, t),
        t != NULL,
    ensures
        t != s.builtin(i),
{
    reveal(State::in_order);
    if t == s.builtin(i) {
        crate::health::lemma_builtin_is_root(s, i);
        lemma_reaches_self(s, t);
        assert(s.live(t));
    }
}

// --- definitions ------------------------------------------------------------

/// A definition keeps a heap in order, and what the roots reach; the type that it
/// makes is good.
pub proof fn lemma_define_struct(
    s: State,
    name: Seq<u8>,
    super_: u32,
    fields: Seq<(Seq<u8>, u32)>,
    mutabl: bool,
)
    requires
        s.in_order(),
        s.good(super_),
        forall|i: int| 0 <= i < fields.len() ==> s.good((#[trigger] fields[i]).1),
    ensures
        ({
            let (e, t) = s.define_struct(name, super_, fields, mutabl);
            &&& follows(s, e)
            &&& tables_stay(s, e)
            &&& tables_grow(s, e)
            &&& e.good(t)
            &&& fields.len() == 0 && !mutabl && t != NULL ==> {
                let v = e.instance_of(t);
                &&& e.good(v)
                &&& e.supertype(t) == super_
                &&& v != NULL ==> e.tag(v) == t
            }
        }),
{
    reveal(State::define_struct);
    lemma_define_type(s, name, super_, fields, mutabl);
    let (a, t) = s.define_type(name, super_, fields, mutabl);
    let (p, tn, types, layout, size) = prepared(s, name, super_, fields, mutabl);
    let n = fields.len() as int + 4;
    let e = s.define_struct(name, super_, fields, mutabl).0;
    if fields.len() == 0 && !mutabl {
        let b = a.push_root(t);
        let (c, v) = b.alloc_object(t, 0);
        let d = c.set_ref(t, 16, v);
        if t != NULL {
            lemma_core(s);
            lemma_core(a);
            assert(bare(a, t)) by {
                lemma_not_core(a, t, id::SVEC);
                lemma_not_core(a, t, id::DATATYPE);
                if tn == s.shared_name(3) {
                    lemma_root_rooted(s, tn);
                }
            }
        }
        lemma_singleton(s, a, t);
        assert(d.roots.take(s.roots.len() as int) =~= s.roots) by {
            assert(a.roots.take(s.roots.len() as int) =~= s.roots);
            assert forall|i: int| 0 <= i < s.roots.len() implies d.roots[i] == s.roots[i] by {
                assert(a.roots.take(s.roots.len() as int)[i] == a.roots[i]);
            }
        }
        assert(tables_grow(s, d));
        assert(follows(s, d.pop_roots(n + 1)) && d.pop_roots(n + 1).roots == s.roots && (
        forall|x: u32| #[trigger] d.good(x) ==> d.pop_roots(n + 1).good(x))) by {
            reveal(carried);
            lemma_release(s, d, n + 1);
        }
        assert(e == d.pop_roots(n + 1));
        assert(forall|u: u32| #[trigger] e.obj(u) == d.obj(u));
    } else {
        assert(follows(s, a.pop_roots(n)) && a.pop_roots(n).roots == s.roots && (forall|x: u32|
            #[trigger] a.good(x) ==> a.pop_roots(n).good(x))) by {
            reveal(carried);
            lemma_release(s, a, n);
        }
    }
}

/// A root that is there is reached from a root.
pub proof fn lemma_root_rooted(s: State, r: u32)
    requires
        s.in_order(),
        s.root_list().contains(r),
        r != NULL,
    ensures
        s.rooted(r),
{
    reveal(State::in_order);
    assert(s.good(r));
    lemma_reaches_self(s, r);
}

/// A definition keeps a heap in order: with a supertype and field types that are good,
/// what the roots reach stays, and a collection after it takes none of it.
pub proof fn law_definition_keeps_health(
    s: State,
    name: Seq<u8>,
    super_: u32,
    fields: Seq<(Seq<u8>, u32)>,
    mutabl: bool,
)
    requires
        s.healthy(),
        s.described(),
        s.good(super_),
        forall|i: int| 0 <= i < fields.len() ==> s.good((#[trigger] fields[i]).1),
    ensures
        s.define_struct(name, super_, fields, mutabl).0.healthy(),
        s.define_struct(name, super_, fields, mutabl).0.described(),
        base_kept(s, s.define_struct(name, super_, fields, mutabl).0),
        s.define_struct(name, super_, fields, mutabl).0.good(
            s.define_struct(name, super_, fields, mutabl).1,
        ),
{
    reveal(State::in_order);
    reveal(carried);
    lemma_define_struct(s, name, super_, fields, mutabl);
}

/// A new callable value keeps a heap in order; its type is a root.
pub proof fn lemma_make_callable(s: State, name: Seq<u8>, kind: FnKind)
    requires
        s.in_order(),
    ensures
        ({
            let t = s.define_struct(name, s.builtin(id::FUNCTION), Seq::empty(), false).1;
            let (e, v) = s.make_callable(name, kind);
            &&& follows(s, e)
            &&& tables_grow(s, e)
            &&& tables_stay(State { functions: e.functions, ..s }, e)
            &&& e.good(v)
            &&& v != NULL ==> e.tag(v) == t && e.root_list().contains(t)
        }),
{
    reveal(State::make_callable);
    let f = s.builtin(id::FUNCTION);
    let none = Seq::<(Seq<u8>, u32)>::empty();
    assert(s.good(f)) by {
        reveal(State::in_order);
        crate::health::lemma_builtin_is_root(s, id::FUNCTION);
    }
    lemma_define_struct(s, name, f, none, false);
    let (a, t) = s.define_struct(name, f, none, false);
    let e = s.make_callable(name, kind).0;
    assert(e == (State { functions: a.functions.push((t, kind)), ..a }));
    lemma_register(a, e, t);
    lemma_follows_trans(s, a, e);
    assert(forall|u: u32| #[trigger] e.obj(u) == a.obj(u));
    if t == NULL {
        lemma_top(a);
        assert(a.instance_of(t) == NULL);
    } else {
        assert(e.functions[a.functions.len() as int].0 == t);
        assert(root(e, t));
        lemma_root(e, t);
    }
}

/// Entering a good value into a table keeps a heap in order.
pub proof fn lemma_register(s: State, e: State, t: u32)
    requires
        s.in_order(),
        s.good(t),
        rerooted(s, e),
        e.roots == s.roots,
        tables_grow(s, e),
        forall|r: u32| #[trigger] root(e, r) ==> root(s, r) || r == t || r == NULL,
    ensures
        follows(s, e),
        forall|x: u32| #[trigger] s.good(x) ==> e.good(x),
{
    reveal(State::in_order);
    reveal(carried);
    assert forall|r: u32| #[trigger] root(e, r) implies s.good(r) by {
        lemma_root(s, r);
    }
    assert forall|r: u32| root(s, r) && r != NULL implies #[trigger] root(e, r) by {
        lemma_root_stays(s, e, r);
    }
    lemma_rerooted(s, e);
}

/// A new callable value keeps a heap in order, and what the roots reach.
pub proof fn law_callable_keeps_health(s: State, name: Seq<u8>, kind: FnKind)
    requires
        s.healthy(),
        s.described(),
    ensures
        s.make_callable(name, kind).0.healthy(),
        s.make_callable(name, kind).0.described(),
        base_kept(s, s.make_callable(name, kind).0),
        s.make_callable(name, kind).0.good(s.make_callable(name, kind).1),
{
    reveal(State::in_order);
    reveal(carried);
    lemma_make_callable(s, name, kind);
}

/// Core types are good.
pub proof fn lemma_core_good(s: State, k: u32)
    requires
        s.in_order(),
    ensures
        s.good(s.builtin(k)),
        s.builtin(k) != NULL ==> s.root_list().contains(s.builtin(k)),
{
    reveal(State::in_order);
    crate::health::lemma_builtin_is_root(s, k);
}

/// What the roots reach is kept.
pub proof fn lemma_rooted_kept(s: State, e: State, v: u32)
    requires
        s.in_order(),
        follows(s, e),
        s.rooted(v),
    ensures
        s.kept(e, v),
        e.rooted(v),
{
    reveal(State::in_order);
    reveal(carried);
    crate::slots::lemma_empty_places(s, 0, 0);
    crate::slots::lemma_empty_places(e, 0, 0);
    let r = choose|r: u32| s.root_list().contains(r) && #[trigger] s.reaches(r, v);
    lemma_reaches_ends(s, r, v);
    lemma_kept_good(s, e, r);
    assert(e.reaches(r, v));
}

} // verus!
