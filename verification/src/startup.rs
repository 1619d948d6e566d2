//! A runtime that was started has a heap in order.
//!
//! The core types are made before there is anything to collect: objects are only added,
//! and each is a data type, a name or a symbol that refers to such objects. From the
//! point at which the core types are known, every step of the start-up keeps the heap
//! in order.

use std::rc::Rc;
use vstd::prelude::*;
use crate::bootstrap::{entry, numbers, others, RowV};
use crate::bytes::utf8;
use crate::definitions::{
    follows, lemma_define_struct, lemma_intern, lemma_intern_grows, lemma_register, lemma_root,
    root, tables_stay,
};
use crate::health::{like, only_at};
use crate::id;
use crate::instances::{array_laid_out, table_listed};
use crate::ir::Body;
use crate::region::{align_up, NULL, REGION_SIZE};
use crate::state::{BuiltinsV, ObjV, State, SymV};
use crate::stores::lemma_local_good;
use crate::symbol::sym_index;
use crate::types::{DataType, DT_SIZE};
use crate::uniquing::{lemma_plain_refs, lemma_write_dt};

verus! {

impl State {
    /// Whether `v` is null or an object.
    pub open spec fn there(self, v: u32) -> bool {
        v == NULL || self.obj(v) is Some
    }

    /// Whether the object at `v` is a data type that refers to objects.
    pub open spec fn forms_type(self, v: u32) -> bool {
        &&& self.data(v).len() == DT_SIZE
        &&& self.there(self.word(v, 0))
        &&& self.there(self.word(v, 4))
        &&& self.word(v, 8) == NULL
        &&& self.word(v, 12) == NULL
        &&& self.there(self.word(v, 16))
        &&& self.word(v, 20) < self.region.top
    }

    /// Whether the object at `v` is a name that refers to an object and has no types
    /// yet.
    pub open spec fn forms_name(self, v: u32) -> bool {
        &&& self.data(v).len() == 16
        &&& self.there(self.word(v, 0))
        &&& self.word(v, 4) == NULL
        &&& self.word(v, 8) == NULL
    }

    /// Whether the object at `v` is a data type, a name or a symbol.
    #[verifier::opaque]
    pub open spec fn forms(self, v: u32, dt: u32, tn: u32, sy: u32) -> bool {
        ||| self.tag(v) == dt && self.forms_type(v)
        ||| self.tag(v) == tn && self.forms_name(v)
        ||| self.tag(v) == sy
    }

    /// Whether the core types are being made: nothing is marked or held, and every
    /// object is a data type, a name or a symbol, of the types `dt`, `tn` and `sy`.
    pub open spec fn forming(self, dt: u32, tn: u32, sy: u32) -> bool {
        &&& self.heap_ok()
        &&& self.builtins is None
        &&& self.region.top % 8 == 0
        &&& 8 * self.layouts.len() >= REGION_SIZE
        &&& forall|v: u32| !(#[trigger] self.is_marked(v))
        &&& forall|i: int| 0 <= i < self.syms.len() ==> self.there((#[trigger] self.syms[i]).off)
        &&& self.obj(dt) is Some && self.tag(dt) == dt
        &&& self.obj(tn) is Some && self.tag(tn) == dt
        &&& self.obj(sy) is Some && self.tag(sy) == dt
        &&& dt != tn && tn != sy && dt != sy
        &&& forall|v: u32|
            #![trigger self.obj(v)]
            self.obj(v) is Some ==> self.forms(v, dt, tn, sy)
    }
}

/// Whether the tables are empty, but for the symbols.
pub open spec fn unused(s: State) -> bool {
    &&& s.roots.len() == 0
    &&& s.methods.len() == 0
    &&& s.functions.len() == 0
    &&& s.structs.len() == 0
    &&& s.exc.len() == 0
    &&& s.main == NULL
}

/// Whether `e` has every object of `s` as it was there, and every layout.
pub open spec fn stays(s: State, e: State) -> bool {
    &&& forall|v: u32| s.obj(v) is Some ==> #[trigger] e.obj(v) == s.obj(v)
    &&& s.region.top <= e.region.top
    &&& forall|off: u32, k: int|
        off < s.region.top ==> #[trigger] e.layout_word(off, k) == s.layout_word(off, k)
}

proof fn lemma_stays_trans(s: State, a: State, b: State)
    requires
        stays(s, a),
        stays(a, b),
    ensures
        stays(s, b),
{
    assert forall|v: u32| s.obj(v) is Some implies #[trigger] b.obj(v) == s.obj(v) by {
        assert(a.obj(v) == s.obj(v));
    }
    assert forall|off: u32, k: int| off < s.region.top implies #[trigger] b.layout_word(off, k)
        == s.layout_word(off, k) by {
        assert(a.layout_word(off, k) == s.layout_word(off, k));
    }
}

/// Taking a slot keeps the region aligned.
proof fn lemma_chunk_aligned(s: State, total: int)
    requires
        s.region.top % 8 == 0,
    ensures
        s.alloc_chunk(total).0.region.top % 8 == 0,
{
    reveal(State::alloc_chunk);
}

/// An allocation before the core types are known: one object more, and nothing else
/// changes.
#[verifier::rlimit(40)]
proof fn lemma_raw_alloc(s: State, t: u32, size: int)
    requires
        s.heap_ok(),
        s.builtins is None,
        s.region.top % 8 == 0,
        forall|v: u32| !(#[trigger] s.is_marked(v)),
        0 <= size,
    ensures
        ({
            let (e, v) = s.alloc_object(t, size);
            &&& e.heap_ok()
            &&& e.region.top % 8 == 0
            &&& s.region.top <= e.region.top
            &&& e == (State {
                objs: e.objs,
                region: e.region,
                pools: e.pools,
                pages: e.pages,
                free_pages: e.free_pages,
                remembered: e.remembered,
                stats: e.stats,
                ..s
            })
            &&& forall|u: u32| !(#[trigger] e.is_marked(u))
            &&& forall|u: u32| u != v ==> #[trigger] e.obj(u) == s.obj(u)
            &&& v == NULL ==> e.obj(v) is None
            &&& v != NULL ==> s.obj(v) is None && v % 8 == 0 && e.obj(v) == Some(
                ObjV {
                    tag: (t - t % 4) as u32,
                    marked: false,
                    old: false,
                    data: crate::bytes::zeros(size as nat),
                },
            )
        }),
{
    reveal(State::alloc_object);
    reveal(State::obtain_chunk);
    reveal(State::maybe_collect);
    crate::object::lemma_alloc_object_keeps(s, t, size);
    let total = 8 + align_up(size);
    let (a, h) = s.alloc_chunk(total);
    crate::slots::law_alloc_chunk(s, total);
    crate::object::lemma_alloc_chunk_keeps(s, total);
    lemma_chunk_aligned(s, total);
    let (e, v) = s.alloc_object(t, size);
    assert(forall|u: u32| #[trigger] a.obj(u) == s.obj(u));
    assert(a.heap_ok()) by {
        crate::health::lemma_same_heap(s, a);
    }
    crate::slots::lemma_empty_places(a, 0, 0);
    if v != NULL {
        let o = ObjV {
            tag: (t - t % 4) as u32,
            marked: false,
            old: false,
            data: crate::bytes::zeros(size as nat),
        };
        crate::survival::law_new_object_keeps_heap(s, total, o);
        assert(e == a.put(v, Some(o)));
        assert forall|u: u32| u != v implies #[trigger] e.obj(u) == s.obj(u) by {
            assert(a.obj(u) == s.obj(u));
            if a.has_slot(u) {
                assert(u / 8 != v / 8);
            }
        }
        assert forall|u: u32| !(#[trigger] e.is_marked(u)) by {
            assert(!s.is_marked(u));
            if u != v {
                assert(e.obj(u) == s.obj(u));
            }
        }
    } else {
        assert forall|u: u32| !(#[trigger] e.is_marked(u)) by {
            assert(!s.is_marked(u));
        }
    }
}

/// One object more of a kind that is being made.
#[verifier::rlimit(60)]
#[verifier::spinoff_prover]
proof fn lemma_form_alloc(s: State, dt: u32, tn: u32, sy: u32, t: u32, size: int)
    requires
        s.forming(dt, tn, sy),
        0 <= size,
        t == dt && size == DT_SIZE || t == tn && size == 16 || t == sy,
    ensures
        ({
            let (e, v) = s.alloc_object(t, size);
            &&& e.forming(dt, tn, sy)
            &&& stays(s, e)
            &&& e == (State {
                objs: e.objs,
                region: e.region,
                pools: e.pools,
                pages: e.pages,
                free_pages: e.free_pages,
                remembered: e.remembered,
                stats: e.stats,
                ..s
            })
            &&& e.obj(NULL) is None
            &&& v != NULL ==> s.obj(v) is None && e.obj(v) is Some && e.tag(v) == t && e.data(v)
                == crate::bytes::zeros(size as nat)
            &&& forall|u: u32| u != v ==> #[trigger] e.obj(u) == s.obj(u)
        }),
{
    let (e, v) = s.alloc_object(t, size);
    lemma_raw_alloc(s, t, size);
    crate::slots::lemma_empty_places(e, 0, 0);
    assert(forall|off: u32, k: int| #[trigger] e.layout_word(off, k) == s.layout_word(off, k));
    assert forall|u: u32| s.obj(u) is Some implies #[trigger] e.obj(u) == s.obj(u) by {
        if u == v && v != NULL {
            assert(s.obj(v) is None);
        }
    }
    assert(s.obj(t) is Some && s.has_slot(t));
    assert forall|i: int| 0 <= i < e.syms.len() implies e.there((#[trigger] e.syms[i]).off) by {
        assert(s.there(s.syms[i].off));
    }
    assert forall|u: u32| #![trigger e.obj(u)] e.obj(u) is Some implies e.forms(
        u,
        dt,
        tn,
        sy,
    ) by {
        if u != v {
            assert(e.obj(u) == s.obj(u));
            assert(s.obj(u) is Some);
            lemma_forms_stays(s, e, u, dt, tn, sy);
        } else {
            lemma_forms_new(e, u, dt, tn, sy, size);
        }
    }
}

/// What was of one of the kinds stays so.
proof fn lemma_forms_stays(s: State, e: State, u: u32, dt: u32, tn: u32, sy: u32)
    requires
        stays(s, e),
        s.obj(u) is Some,
        s.forms(u, dt, tn, sy),
    ensures
        e.forms(u, dt, tn, sy),
{
    reveal(State::forms);
    assert(e.obj(u) == s.obj(u));
    assert forall|x: u32| #[trigger] s.there(x) implies e.there(x) by {
        if x != NULL {
            assert(e.obj(x) == s.obj(x));
        }
    }
}

/// A zeroed object is of its kind.
proof fn lemma_forms_new(e: State, v: u32, dt: u32, tn: u32, sy: u32, size: int)
    requires
        e.obj(v) is Some,
        e.region.top > 0,
        0 <= size,
        e.data(v) == crate::bytes::zeros(size as nat),
        e.tag(v) == dt && size == DT_SIZE || e.tag(v) == tn && size == 16 || e.tag(v) == sy,
    ensures
        e.forms(v, dt, tn, sy),
{
    reveal(State::forms);
}

/// Writing to an object that stays of its kind.
proof fn lemma_form_write(s: State, e: State, v: u32, dt: u32, tn: u32, sy: u32)
    requires
        s.forming(dt, tn, sy),
        only_at(s, e, v),
        e.tag(v) == s.tag(v),
        e.forms(v, dt, tn, sy),
    ensures
        e.forming(dt, tn, sy),
{
    assert forall|u: u32| !(#[trigger] e.is_marked(u)) by {
        assert(!s.is_marked(u));
        if u != v {
            assert(e.obj(u) == s.obj(u));
        }
    }
    assert(e.heap_ok()) by {
        crate::writes::lemma_refs_stay_heap(s, e, v);
    }
    assert forall|x: u32| #[trigger] s.there(x) implies e.there(x) by {
        if x != v {
            assert(e.obj(x) == s.obj(x));
        }
    }
    assert forall|i: int| 0 <= i < e.syms.len() implies e.there((#[trigger] e.syms[i]).off) by {
        assert(s.there(s.syms[i].off));
    }
    assert(e.tag(dt) == dt && e.tag(tn) == dt && e.tag(sy) == dt && e.obj(dt) is Some && e.obj(
        tn,
    ) is Some && e.obj(sy) is Some) by {
        if dt != v {
            assert(e.obj(dt) == s.obj(dt));
        }
        if tn != v {
            assert(e.obj(tn) == s.obj(tn));
        }
        if sy != v {
            assert(e.obj(sy) == s.obj(sy));
        }
    }
    assert forall|u: u32| #![trigger e.obj(u)] e.obj(u) is Some implies e.forms(
        u,
        dt,
        tn,
        sy,
    ) by {
        if u != v {
            assert(e.obj(u) == s.obj(u));
            assert(s.forms(u, dt, tn, sy));
            reveal(State::forms);
        }
    }
}

/// A symbol more, or the one that was there.
#[verifier::rlimit(40)]
proof fn lemma_form_intern(s: State, dt: u32, tn: u32, sy: u32, text: Seq<u8>)
    requires
        s.forming(dt, tn, sy),
    ensures
        ({
            let (e, v) = s.intern(sy, text);
            &&& e.forming(dt, tn, sy)
            &&& stays(s, e)
            &&& e.there(v)
            &&& unused(s) ==> unused(e)
        }),
{
    reveal(State::intern);
    if text.len() <= crate::gc::PAGE_SIZE {
        match sym_index(s.syms, text, 0) {
            Some(i) => {
                crate::symbol::lemma_sym_index(s.syms, SymV { text, off: NULL }, 0);
                assert(s.there(s.syms[i].off));
            },
            None => {
                let n = 4 + text.len() as int;
                lemma_form_alloc(s, dt, tn, sy, sy, n);
                let (a, v) = s.alloc_object(sy, n);
                let b = a.with_word(v, 0, text.len() as u32);
                let c = b.fill(v, 4, text, 0);
                if v == NULL {
                    crate::definitions::lemma_fill_nowhere(b, v, 4, text, 0);
                } else {
                    crate::health::lemma_word_only_at(a, v, 0, text.len() as u32);
                    crate::definitions::lemma_fill_only_at(b, v, 4, text, 0);
                    crate::health::lemma_only_at_trans(a, b, c, v);
                    assert(c.forms(v, dt, tn, sy)) by {
                        reveal(State::forms);
                    }
                    lemma_form_write(a, c, v, dt, tn, sy);
                }
                let e = State { syms: c.syms.push(SymV { text, off: v }), ..c };
                lemma_form_symbols(s, c, e, v, dt, tn, sy);
            },
        }
    }
}

proof fn lemma_form_symbols(s: State, c: State, e: State, v: u32, dt: u32, tn: u32, sy: u32)
    requires
        c.forming(dt, tn, sy),
        c.there(v),
        e == (State { syms: e.syms, ..c }),
        e.syms.len() == c.syms.len() + 1,
        forall|i: int| 0 <= i < c.syms.len() ==> #[trigger] e.syms[i] == c.syms[i],
        e.syms[c.syms.len() as int].off == v,
        v != NULL ==> s.obj(v) is None,
        s.obj(NULL) is None,
        forall|u: u32| u != v ==> #[trigger] c.obj(u) == s.obj(u),
        c.layouts == s.layouts,
        s.region.top <= c.region.top,
    ensures
        e.forming(dt, tn, sy),
        stays(s, e),
{
    assert(forall|u: u32| #[trigger] e.obj(u) == c.obj(u));
    assert(forall|off: u32, k: int| #[trigger] e.layout_word(off, k) == s.layout_word(off, k));
    assert(e.slots_ok()) by {
        crate::slots::lemma_same_pages(c, e);
    }
    crate::slots::lemma_same_tell(c, e);
    crate::health::lemma_same_heap(c, e);
    assert forall|u: u32| !(#[trigger] e.is_marked(u)) by {
        assert(!c.is_marked(u));
    }
    assert forall|i: int| 0 <= i < e.syms.len() implies e.there((#[trigger] e.syms[i]).off) by {
        if i < c.syms.len() {
            assert(c.there(c.syms[i].off));
        }
    }
    assert forall|u: u32| #![trigger e.obj(u)] e.obj(u) is Some implies e.forms(
        u,
        dt,
        tn,
        sy,
    ) by {
        assert(c.obj(u) is Some);
        reveal(State::forms);
    }
    assert forall|u: u32| s.obj(u) is Some implies #[trigger] e.obj(u) == s.obj(u) by {
        if u != v {
            assert(c.obj(u) == s.obj(u));
        }
    }
}

/// A name more.
#[verifier::rlimit(40)]
proof fn lemma_form_name(s: State, types: Seq<u32>, dt: u32, tn: u32, sy: u32, name: Seq<u8>)
    requires
        s.forming(dt, tn, sy),
        unused(s),
        entry(types, id::SYMBOL) == sy,
        entry(types, id::TYPENAME) == tn,
    ensures
        ({
            let (e, v) = s.name_object(types, name);
            &&& e.forming(dt, tn, sy)
            &&& stays(s, e)
            &&& e.there(v)
            &&& unused(e)
            &&& v != NULL ==> s.obj(v) is None && e.tag(v) == tn
        }),
{
    reveal(State::make_typename);
    lemma_form_intern(s, dt, tn, sy, name);
    let (a, sym) = s.intern(sy, name);
    let b = a.push_root(sym);
    lemma_form_rooted(a, b, dt, tn, sy);
    lemma_form_alloc(b, dt, tn, sy, tn, 16);
    let (c, v) = b.alloc_object(tn, 16);
    let d = c.pop_roots(1);
    lemma_form_rooted(c, d, dt, tn, sy);
    assert(forall|u: u32| #[trigger] d.obj(u) == c.obj(u));
    assert(forall|u: u32| #[trigger] b.obj(u) == a.obj(u));
    let e = d.with_word(v, 0, sym);
    assert(d.roots =~= Seq::<u32>::empty());
    if v != NULL {
        crate::health::lemma_word_only_at(d, v, 0, sym);
        crate::bytes::lemma_word_read_write(d.data(v), 0, sym);
        crate::bytes::lemma_word_read_other(d.data(v), 0, 4, sym);
        crate::bytes::lemma_word_read_other(d.data(v), 0, 8, sym);
        assert(e.there(sym)) by {
            if sym != NULL {
                assert(a.obj(sym) is Some);
                assert(sym != v);
                assert(e.obj(sym) == d.obj(sym));
            }
        }
        assert(e.forms(v, dt, tn, sy)) by {
            reveal(State::forms);
        }
        lemma_form_write(d, e, v, dt, tn, sy);
    }
    assert(stays(a, e)) by {
        assert(forall|off: u32, k: int| #[trigger] e.layout_word(off, k) == a.layout_word(off, k));
        assert forall|u: u32| a.obj(u) is Some implies #[trigger] e.obj(u) == a.obj(u) by {
            assert(b.obj(u) is Some);
            assert(u != v);
            assert(c.obj(u) == b.obj(u));
            assert(e.obj(u) == d.obj(u));
        }
    }
    lemma_stays_trans(s, a, e);
    if v != NULL && s.obj(v) is Some {
        assert(a.obj(v) == s.obj(v));
        assert(b.obj(v) is None);
    }
}

/// The shadow stack is of no account while the core types are made.
proof fn lemma_form_rooted(s: State, e: State, dt: u32, tn: u32, sy: u32)
    requires
        s.forming(dt, tn, sy),
        e == (State { roots: e.roots, ..s }),
    ensures
        e.forming(dt, tn, sy),
{
    assert(forall|u: u32| #[trigger] e.obj(u) == s.obj(u));
    assert(e.slots_ok()) by {
        crate::slots::lemma_same_pages(s, e);
    }
    crate::slots::lemma_same_tell(s, e);
    crate::health::lemma_same_heap(s, e);
    assert forall|u: u32| !(#[trigger] e.is_marked(u)) by {
        assert(!s.is_marked(u));
    }
    assert forall|i: int| 0 <= i < e.syms.len() implies e.there((#[trigger] e.syms[i]).off) by {
        assert(s.there(s.syms[i].off));
    }
    assert forall|u: u32| #![trigger e.obj(u)] e.obj(u) is Some implies e.forms(
        u,
        dt,
        tn,
        sy,
    ) by {
        assert(s.obj(u) is Some);
        reveal(State::forms);
    }
}

/// Whether the layout at `off` lists the references at `ptrs`.
pub open spec fn lists(s: State, off: u32, ptrs: Seq<u32>) -> bool {
    &&& s.layout_word(off, 0) == ptrs.len()
    &&& forall|i: int| 0 <= i < ptrs.len() ==> #[trigger] s.layout_word(off, 1 + i) == ptrs[i]
}

/// A layout more.
#[verifier::rlimit(40)]
proof fn lemma_form_layout(s: State, dt: u32, tn: u32, sy: u32, ptrs: Seq<u32>)
    requires
        s.forming(dt, tn, sy),
        ptrs.len() < 100,
    ensures
        ({
            let (e, off) = s.make_layout(ptrs);
            &&& e.forming(dt, tn, sy)
            &&& stays(s, e)
            &&& e == (State { region: e.region, layouts: e.layouts, ..s })
            &&& off < e.region.top
            &&& ptrs.len() == 0 ==> off == NULL
            &&& off != NULL ==> lists(e, off, ptrs)
        }),
{
    reveal(State::place_words);
    let (e, off) = s.make_layout(ptrs);
    assert(forall|u: u32| #[trigger] e.obj(u) == s.obj(u));
    let ws = seq![ptrs.len() as u32] + ptrs;
    assert(s.region.top >= 8);
    assert(e.slots_ok()) by {
        assert(e.pages_placed());
        assert(e.objects_placed()) by {
            assert forall|v: u32| #![trigger e.obj(v)] e.obj(v) is Some implies exists|i: int|
                e.holds(i, v) by {
                assert(s.obj(v) is Some);
                let i = choose|i: int| s.holds(i, v);
                assert(e.holds(i, v));
            }
        }
        assert forall|i: int| #![trigger e.pages[i]] 0 <= i < e.pages.len()
            && e.pages[i].in_use implies e.free_list_ok(i) by {
            assert(s.free_list_ok(i));
        }
    }
    assert forall|u: u32| !(#[trigger] e.is_marked(u)) by {
        assert(!s.is_marked(u));
    }
    assert(e.heap_ok()) by {
        assert forall|k: int| 0 <= k < e.remembered.len() implies e.is_marked(
            #[trigger] e.remembered[k],
        ) by {
            assert(s.is_marked(s.remembered[k]));
        }
    }
    assert forall|o: u32, k: int| o < s.region.top implies #[trigger] e.layout_word(o, k)
        == s.layout_word(o, k) by {
        if o % 8 == 0 && off != NULL {
            assert(off == s.region.top);
            assert(o / 8 != off / 8);
        }
    }
    assert forall|i: int| 0 <= i < e.syms.len() implies e.there((#[trigger] e.syms[i]).off) by {
        assert(s.there(s.syms[i].off));
    }
    assert forall|u: u32| #![trigger e.obj(u)] e.obj(u) is Some implies e.forms(
        u,
        dt,
        tn,
        sy,
    ) by {
        assert(s.obj(u) is Some);
        lemma_forms_stays(s, e, u, dt, tn, sy);
    }
    if off != NULL {
        assert forall|i: int| 0 <= i < ptrs.len() implies #[trigger] e.layout_word(off, 1 + i)
            == ptrs[i] by {
            assert(ws[1 + i] == ptrs[i]);
        }
    }
}

/// Filling in a data type.
#[verifier::rlimit(40)]
proof fn lemma_form_type(s: State, dt: u32, tn: u32, sy: u32, t: u32, d: DataType)
    requires
        s.forming(dt, tn, sy),
        s.obj(t) is Some,
        s.tag(t) == dt,
        s.there(d.name),
        s.there(d.super_),
        d.parameters == NULL,
        d.types == NULL,
        s.there(d.instance),
        d.layout < s.region.top,
    ensures
        ({
            let e = s.write_dt(t, d);
            &&& e.forming(dt, tn, sy)
            &&& e == (State { objs: e.objs, ..s })
            &&& forall|u: u32| u != t ==> #[trigger] e.obj(u) == s.obj(u)
            &&& e.obj(t) is Some
            &&& e.tag(t) == dt
            &&& e.word(t, 0) == d.name
            &&& e.word(t, 20) == d.layout
        }),
{
    let e = s.write_dt(t, d);
    let ws = crate::uniquing::dt_words(d);
    lemma_write_dt(s, t, d);
    assert(s.forms(t, dt, tn, sy));
    assert(s.data(t).len() == DT_SIZE) by {
        reveal(State::forms);
    }
    crate::health::lemma_write_words(s, t, 0, ws, 0);
    assert(e.word(t, 0 + 4 * 0int) == ws[0]);
    assert(e.word(t, 0 + 4 * 1int) == ws[1]);
    assert(e.word(t, 0 + 4 * 2int) == ws[2]);
    assert(e.word(t, 0 + 4 * 3int) == ws[3]);
    assert(e.word(t, 0 + 4 * 4int) == ws[4]);
    assert(e.word(t, 0 + 4 * 5int) == ws[5]);
    assert forall|x: u32| #[trigger] s.there(x) implies e.there(x) by {
        if x != t {
            assert(e.obj(x) == s.obj(x));
        }
    }
    assert(e.forms(t, dt, tn, sy)) by {
        reveal(State::forms);
    }
    lemma_form_write(s, e, t, dt, tn, sy);
}

/// Whether the layout of `t`, if there is one, lists the references at `ptrs`; and
/// there is none where there are no references.
pub open spec fn laid_out(s: State, t: u32, ptrs: Seq<u32>) -> bool {
    &&& s.layout(t) < s.region.top
    &&& ptrs.len() == 0 ==> s.layout(t) == NULL
    &&& s.layout(t) != NULL ==> lists(s, s.layout(t), ptrs)
}

proof fn lemma_laid_out_stays(s: State, e: State, t: u32, ptrs: Seq<u32>)
    requires
        laid_out(s, t, ptrs),
        e.obj(t) == s.obj(t),
        s.region.top <= e.region.top,
        forall|off: u32, k: int|
            off < s.region.top ==> #[trigger] e.layout_word(off, k) == s.layout_word(off, k),
    ensures
        laid_out(e, t, ptrs),
{
    assert(e.layout(t) == s.layout(t));
    if s.layout(t) != NULL {
        assert forall|i: int| 0 <= i < ptrs.len() implies #[trigger] e.layout_word(
            e.layout(t),
            1 + i,
        ) == ptrs[i] by {
            assert(s.layout_word(s.layout(t), 1 + i) == ptrs[i]);
        }
    }
}

/// Whether `e` has every object of `s` but the one at `t` as it was, and every layout.
pub open spec fn stays_but(s: State, e: State, t: u32) -> bool {
    &&& forall|v: u32| s.obj(v) is Some && v != t ==> #[trigger] e.obj(v) == s.obj(v)
    &&& s.region.top <= e.region.top
    &&& forall|off: u32, k: int|
        off < s.region.top ==> #[trigger] e.layout_word(off, k) == s.layout_word(off, k)
}

/// The data that a row gives its type.
pub open spec fn row_type(row: RowV, types: Seq<u32>, name: u32, layout: u32) -> DataType {
    DataType {
        name,
        super_: entry(types, row.super_id),
        parameters: NULL,
        types: NULL,
        instance: NULL,
        layout,
        size: row.size,
        nfields: 0,
        flags: row.flags,
    }
}

/// The name and the layout of a type, then its body.
proof fn lemma_form_body(
    s: State,
    types: Seq<u32>,
    dt: u32,
    tn: u32,
    sy: u32,
    t: u32,
    row: RowV,
    name: u32,
)
    requires
        s.forming(dt, tn, sy),
        unused(s),
        s.obj(t) is Some,
        s.tag(t) == dt,
        s.there(name),
        s.there(entry(types, row.super_id)),
        row.ptrs.len() < 100,
    ensures
        ({
            let (a, layout) = s.make_layout(row.ptrs);
            let e = a.write_dt(t, row_type(row, types, name, layout));
            &&& e.forming(dt, tn, sy)
            &&& unused(e)
            &&& stays_but(s, e, t)
            &&& e.obj(t) is Some
            &&& e.tag(t) == dt
            &&& laid_out(e, t, row.ptrs)
        }),
{
    lemma_form_layout(s, dt, tn, sy, row.ptrs);
    let (a, layout) = s.make_layout(row.ptrs);
    assert(forall|u: u32| #[trigger] a.obj(u) == s.obj(u));
    let d = row_type(row, types, name, layout);
    lemma_form_type(a, dt, tn, sy, t, d);
    let e = a.write_dt(t, d);
    assert(forall|off: u32, k: int| #[trigger] e.layout_word(off, k) == a.layout_word(off, k));
    if layout != NULL {
        assert forall|i: int| 0 <= i < row.ptrs.len() implies #[trigger] e.layout_word(
            e.layout(t),
            1 + i,
        ) == row.ptrs[i] by {
            assert(a.layout_word(layout, 1 + i) == row.ptrs[i]);
        }
    }
}

/// Filling in one of the first types.
proof fn lemma_fill_type(s: State, types: Seq<u32>, dt: u32, tn: u32, sy: u32, row: RowV)
    requires
        s.forming(dt, tn, sy),
        unused(s),
        entry(types, id::SYMBOL) == sy,
        entry(types, id::TYPENAME) == tn,
        s.there(entry(types, row.id)),
        entry(types, row.id) != NULL ==> s.tag(entry(types, row.id)) == dt,
        s.there(entry(types, row.super_id)),
        row.ptrs.len() < 100,
    ensures
        ({
            let t = entry(types, row.id);
            let e = s.fill_type(types, row);
            &&& e.forming(dt, tn, sy)
            &&& unused(e)
            &&& stays_but(s, e, t)
            &&& t != NULL ==> e.obj(t) is Some && e.tag(t) == dt && laid_out(e, t, row.ptrs)
        }),
{
    let t = entry(types, row.id);
    lemma_form_name(s, types, dt, tn, sy, row.name);
    let (a, name) = s.name_object(types, row.name);
    let (b, layout) = a.make_layout(row.ptrs);
    let e = s.fill_type(types, row);
    assert(e == b.write_dt(t, row_type(row, types, name, layout)));
    if t == NULL {
        lemma_form_layout(a, dt, tn, sy, row.ptrs);
        crate::slots::lemma_empty_places(b, 0, 0);
        assert(e == b);
        lemma_stays_trans(s, a, b);
    } else {
        assert(a.obj(t) == s.obj(t));
        let x = entry(types, row.super_id);
        if x != NULL {
            assert(a.obj(x) == s.obj(x));
        }
        lemma_form_body(a, types, dt, tn, sy, t, row, name);
        assert forall|v: u32| s.obj(v) is Some && v != t implies #[trigger] e.obj(v) == s.obj(
            v,
        ) by {
            assert(a.obj(v) == s.obj(v));
        }
        assert forall|off: u32, k: int| off < s.region.top implies #[trigger] e.layout_word(off, k)
            == s.layout_word(off, k) by {
            assert(a.layout_word(off, k) == s.layout_word(off, k));
        }
    }
}

/// Whether every entry of the table is null or a data type.
pub open spec fn table_ok(s: State, types: Seq<u32>, dt: u32) -> bool {
    forall|k: int|
        0 <= k < types.len() && #[trigger] types[k] != NULL ==> s.obj(types[k]) is Some && s.tag(
            types[k],
        ) == dt
}

/// A type more.
#[verifier::rlimit(60)]
#[verifier::spinoff_prover]
proof fn lemma_add_type(s: State, types: Seq<u32>, dt: u32, tn: u32, sy: u32, row: RowV)
    requires
        s.forming(dt, tn, sy),
        unused(s),
        table_ok(s, types, dt),
        entry(types, id::DATATYPE) == dt,
        entry(types, id::SYMBOL) == sy,
        entry(types, id::TYPENAME) == tn,
        row.ptrs.len() < 100,
        row.id != id::DATATYPE && row.id != id::SYMBOL && row.id != id::TYPENAME,
    ensures
        ({
            let (e, ts) = s.add_type(types, row);
            let v = entry(ts, row.id);
            &&& e.forming(dt, tn, sy)
            &&& unused(e)
            &&& stays(s, e)
            &&& ts.len() == types.len()
            &&& table_ok(e, ts, dt)
            &&& forall|k: u32| k != row.id ==> #[trigger] entry(ts, k) == entry(types, k)
            &&& v != NULL ==> s.obj(v) is None && laid_out(e, v, row.ptrs)
        }),
{
    reveal(State::add_type);
    lemma_form_name(s, types, dt, tn, sy, row.name);
    let (a, name) = s.name_object(types, row.name);
    lemma_form_alloc(a, dt, tn, sy, dt, DT_SIZE as int);
    let (b, v) = a.alloc_object(dt, DT_SIZE as int);
    lemma_stays_trans(s, a, b);
    assert(b.there(name)) by {
        if name != NULL {
            assert(b.obj(name) == a.obj(name));
        }
    }
    let x = entry(types, row.super_id);
    assert(b.there(x)) by {
        if x != NULL {
            assert(types[row.super_id as int] == x);
            assert(b.obj(x) == s.obj(x));
        }
    }
    let (c, layout) = b.make_layout(row.ptrs);
    let e = c.write_dt(v, row_type(row, types, name, layout));
    let (e1, ts) = s.add_type(types, row);
    assert(e1 == e);
    if v == NULL {
        lemma_form_layout(b, dt, tn, sy, row.ptrs);
        crate::slots::lemma_empty_places(c, 0, 0);
        assert(e == c);
        lemma_stays_trans(s, b, c);
    } else {
        lemma_form_body(b, types, dt, tn, sy, v, row, name);
        assert(s.obj(v) is None) by {
            if s.obj(v) is Some {
                assert(a.obj(v) == s.obj(v));
            }
        }
        assert(stays(s, e)) by {
            assert forall|u: u32| s.obj(u) is Some implies #[trigger] e.obj(u) == s.obj(u) by {
                assert(b.obj(u) == s.obj(u));
            }
            assert forall|off: u32, k: int| off < s.region.top implies #[trigger] e.layout_word(
                off,
                k,
            ) == s.layout_word(off, k) by {
                assert(b.layout_word(off, k) == s.layout_word(off, k));
            }
        }
    }
    assert(table_ok(e, ts, dt)) by {
        assert forall|k: int| 0 <= k < ts.len() && #[trigger] ts[k] != NULL implies e.obj(
            ts[k],
        ) is Some && e.tag(ts[k]) == dt by {
            if k != row.id as int {
                assert(types[k] == ts[k]);
                assert(e.obj(ts[k]) == s.obj(ts[k]));
            }
        }
    }
}

/// What a row made, after all rows were done.
proof fn lemma_add_types(
    s: State,
    types: Seq<u32>,
    dt: u32,
    tn: u32,
    sy: u32,
    rows: Seq<RowV>,
    i: int,
)
    requires
        s.forming(dt, tn, sy),
        unused(s),
        table_ok(s, types, dt),
        entry(types, id::DATATYPE) == dt,
        entry(types, id::SYMBOL) == sy,
        entry(types, id::TYPENAME) == tn,
        0 <= i <= rows.len(),
        forall|j: int|
            0 <= j < rows.len() ==> (#[trigger] rows[j]).ptrs.len() < 100 && rows[j].id
                != id::DATATYPE && rows[j].id != id::SYMBOL && rows[j].id != id::TYPENAME,
    ensures
        ({
            let (e, ts) = s.add_types(types, rows, i);
            &&& e.forming(dt, tn, sy)
            &&& unused(e)
            &&& stays(s, e)
            &&& ts.len() == types.len()
            &&& table_ok(e, ts, dt)
            &&& forall|k: u32|
                (forall|j: int| i <= j < rows.len() ==> (#[trigger] rows[j]).id != k)
                    ==> #[trigger] entry(ts, k) == entry(types, k)
        }),
    decreases rows.len() - i,
{
    if i < rows.len() {
        lemma_add_type(s, types, dt, tn, sy, rows[i]);
        let (a, ts1) = s.add_type(types, rows[i]);
        lemma_add_types(a, ts1, dt, tn, sy, rows, i + 1);
        let (e, ts) = s.add_types(types, rows, i);
        lemma_stays_trans(s, a, e);
        assert forall|k: u32|
            (forall|j: int| i <= j < rows.len() ==> (#[trigger] rows[j]).id != k) implies
            #[trigger] entry(ts, k) == entry(types, k) by {
            assert(rows[i].id != k);
            assert(entry(ts1, k) == entry(types, k));
        }
    }
}

/// What one row made, after all rows were done.
proof fn lemma_added(
    s: State,
    types: Seq<u32>,
    dt: u32,
    tn: u32,
    sy: u32,
    rows: Seq<RowV>,
    i: int,
    j: int,
)
    requires
        s.forming(dt, tn, sy),
        unused(s),
        table_ok(s, types, dt),
        entry(types, id::DATATYPE) == dt,
        entry(types, id::SYMBOL) == sy,
        entry(types, id::TYPENAME) == tn,
        0 <= i <= j < rows.len(),
        forall|l: int|
            0 <= l < rows.len() ==> (#[trigger] rows[l]).ptrs.len() < 100 && rows[l].id
                != id::DATATYPE && rows[l].id != id::SYMBOL && rows[l].id != id::TYPENAME,
        forall|l: int| j < l < rows.len() ==> (#[trigger] rows[l]).id != rows[j].id,
    ensures
        ({
            let (e, ts) = s.add_types(types, rows, i);
            let v = entry(ts, rows[j].id);
            v != NULL ==> s.obj(v) is None && laid_out(e, v, rows[j].ptrs)
        }),
    decreases rows.len() - i,
{
    lemma_add_type(s, types, dt, tn, sy, rows[i]);
    let (a, ts1) = s.add_type(types, rows[i]);
    let (e, ts) = s.add_types(types, rows, i);
    let v = entry(ts, rows[j].id);
    lemma_add_types(a, ts1, dt, tn, sy, rows, i + 1);
    if i < j {
        lemma_added(a, ts1, dt, tn, sy, rows, i + 1, j);
        if v != NULL && s.obj(v) is Some {
            assert(a.obj(v) == s.obj(v));
        }
    } else {
        assert(v == entry(ts1, rows[j].id));
        if v != NULL {
            assert(ts1[rows[j].id as int] == v);
            assert(a.obj(v) is Some);
            assert(e.obj(v) == a.obj(v));
            lemma_laid_out_stays(a, e, v, rows[j].ptrs);
        }
    }
}

/// Whether a heap is empty and can be used.
pub open spec fn blank(s: State) -> bool {
    &&& s.heap_ok()
    &&& s.builtins is None
    &&& s.region.top % 8 == 0
    &&& 8 * s.layouts.len() >= REGION_SIZE
    &&& s.syms.len() == 0
    &&& unused(s)
    &&& forall|v: u32| #[trigger] s.obj(v) is None
}

/// The four first objects, before they are filled in.
#[verifier::rlimit(60)]
#[verifier::spinoff_prover]
proof fn lemma_first_objects(s: State)
    requires
        blank(s),
        ({
            let n = DT_SIZE as int;
            let (s1, dt) = s.alloc_object(0, n);
            let (s2, sy) = s1.with_tag(dt, (dt - dt % 4) as u32).alloc_object(dt, n);
            let (s3, tn) = s2.alloc_object(dt, n);
            dt != NULL && sy != NULL && tn != NULL
        }),
    ensures
        ({
            let n = DT_SIZE as int;
            let (s1, dt) = s.alloc_object(0, n);
            let (s2, sy) = s1.with_tag(dt, (dt - dt % 4) as u32).alloc_object(dt, n);
            let (s3, tn) = s2.alloc_object(dt, n);
            let (s4, any) = s3.alloc_object(dt, n);
            &&& s4.forming(dt, tn, sy)
            &&& unused(s4)
            &&& s4.there(any)
            &&& any != NULL ==> s4.tag(any) == dt && any != dt && any != tn && any != sy
        }),
{
    let n = DT_SIZE as int;
    assert forall|v: u32| !(#[trigger] s.is_marked(v)) by {
        assert(s.obj(v) is None);
    }
    lemma_raw_alloc(s, 0, n);
    let (s1, dt) = s.alloc_object(0, n);
    let a = s1.with_tag(dt, (dt - dt % 4) as u32);
    assert(only_at(s1, a, dt)) by {
        assert forall|u: u32| u != dt implies #[trigger] a.obj(u) == s1.obj(u) by {
            if s1.has_slot(u) && s1.has_slot(dt) {
                assert(u / 8 != dt / 8);
            }
        }
    }
    crate::writes::lemma_refs_stay_heap(s1, a, dt);
    assert forall|v: u32| !(#[trigger] a.is_marked(v)) by {
        assert(!s1.is_marked(v));
        if v != dt {
            assert(a.obj(v) == s1.obj(v));
        }
    }
    assert forall|v: u32| v != dt implies #[trigger] a.obj(v) is None by {
        assert(a.obj(v) == s1.obj(v));
        assert(s1.obj(v) == s.obj(v));
    }
    lemma_raw_alloc(a, dt, n);
    let (s2, sy) = a.alloc_object(dt, n);
    lemma_raw_alloc(s2, dt, n);
    let (s3, tn) = s2.alloc_object(dt, n);
    lemma_raw_alloc(s3, dt, n);
    let (s4, any) = s3.alloc_object(dt, n);
    assert(s2.obj(dt) == a.obj(dt));
    assert(s3.obj(dt) == s2.obj(dt) && s3.obj(sy) == s2.obj(sy));
    assert(s4.obj(dt) == s3.obj(dt) && s4.obj(sy) == s3.obj(sy) && s4.obj(tn) == s3.obj(tn));
    assert forall|v: u32| #![trigger s4.obj(v)] s4.obj(v) is Some implies s4.forms(
        v,
        dt,
        tn,
        sy,
    ) by {
        if v != any {
            assert(s4.obj(v) == s3.obj(v));
            if v != tn {
                assert(s3.obj(v) == s2.obj(v));
                if v != sy {
                    assert(s2.obj(v) == a.obj(v));
                }
            }
        }
        lemma_forms_new(s4, v, dt, tn, sy, n);
    }
}

/// The table of the four first types.
pub open spec fn first_table(dt: u32, tn: u32, sy: u32, any: u32) -> Seq<u32> {
    Seq::new(id::COUNT as nat, |i: int| NULL).update(id::DATATYPE as int, dt).update(
        id::SYMBOL as int,
        sy,
    ).update(id::TYPENAME as int, tn).update(id::ANY as int, any)
}

/// The first types are there, and have their layouts.
#[verifier::rlimit(60)]
#[verifier::spinoff_prover]
proof fn lemma_first_types(s: State)
    requires
        blank(s),
        entry(s.first_types().1, id::DATATYPE) != NULL,
        entry(s.first_types().1, id::SYMBOL) != NULL,
        entry(s.first_types().1, id::TYPENAME) != NULL,
    ensures
        ({
            let (e, types) = s.first_types();
            let dt = entry(types, id::DATATYPE);
            let tn = entry(types, id::TYPENAME);
            let sy = entry(types, id::SYMBOL);
            &&& e.forming(dt, tn, sy)
            &&& unused(e)
            &&& types.len() == id::COUNT
            &&& table_ok(e, types, dt)
            &&& laid_out(e, dt, seq![0u32, 4u32, 8u32, 12u32, 16u32])
            &&& laid_out(e, tn, seq![0u32, 4u32, 8u32])
            &&& laid_out(e, sy, Seq::empty())
        }),
{
    reveal(State::first_types);
    let n = DT_SIZE as int;
    let (s1, dt) = s.alloc_object(0, n);
    let (s2, sy) = s1.with_tag(dt, (dt - dt % 4) as u32).alloc_object(dt, n);
    let (s3, tn) = s2.alloc_object(dt, n);
    let (s4, any) = s3.alloc_object(dt, n);
    let types = first_table(dt, tn, sy, any);
    assert(s.first_types().1 == types);
    lemma_first_objects(s);
    let r1 = RowV {
        id: id::DATATYPE,
        name: utf8("DataType"),
        super_id: id::ANY,
        flags: 0,
        size: DT_SIZE,
        ptrs: seq![0u32, 4u32, 8u32, 12u32, 16u32],
    };
    lemma_fill_type(s4, types, dt, tn, sy, r1);
    let s5 = s4.fill_type(types, r1);
    let r2 = crate::bootstrap::plain(id::SYMBOL, "Symbol", id::ANY, 0, 0);
    assert(s5.there(any) && (any != NULL ==> s5.tag(any) == dt)) by {
        if any != NULL {
            assert(s5.obj(any) == s4.obj(any));
        }
    }
    lemma_fill_type(s5, types, dt, tn, sy, r2);
    let s6 = s5.fill_type(types, r2);
    assert(s6.obj(dt) == s5.obj(dt));
    lemma_laid_out_stays(s5, s6, dt, r1.ptrs);
    let r3 = RowV {
        id: id::TYPENAME,
        name: utf8("TypeName"),
        super_id: id::ANY,
        flags: 0,
        size: 16,
        ptrs: seq![0u32, 4u32, 8u32],
    };
    assert(s6.there(any) && (any != NULL ==> s6.tag(any) == dt)) by {
        if any != NULL {
            assert(s6.obj(any) == s5.obj(any));
        }
    }
    lemma_fill_type(s6, types, dt, tn, sy, r3);
    let s7 = s6.fill_type(types, r3);
    assert(s7.obj(dt) == s6.obj(dt) && s7.obj(sy) == s6.obj(sy));
    lemma_laid_out_stays(s6, s7, dt, r1.ptrs);
    lemma_laid_out_stays(s6, s7, sy, r2.ptrs);
    assert(s7.there(any) && (any != NULL ==> s7.tag(any) == dt)) by {
        if any != NULL {
            assert(s7.obj(any) == s6.obj(any));
        }
    }
    let r4 = crate::bootstrap::plain(id::ANY, "Any", id::ANY, crate::access::FLAG_ABSTRACT, 0);
    lemma_fill_type(s7, types, dt, tn, sy, r4);
    let e = s7.fill_type(types, r4);
    assert(e.obj(dt) == s7.obj(dt) && e.obj(sy) == s7.obj(sy) && e.obj(tn) == s7.obj(tn));
    lemma_laid_out_stays(s7, e, dt, r1.ptrs);
    lemma_laid_out_stays(s7, e, sy, r2.ptrs);
    lemma_laid_out_stays(s7, e, tn, r3.ptrs);
    assert(table_ok(e, types, dt)) by {
        assert forall|k: int| 0 <= k < types.len() && #[trigger] types[k] != NULL implies e.obj(
            types[k],
        ) is Some && e.tag(types[k]) == dt by {
            assert(types[k] == dt || types[k] == sy || types[k] == tn || types[k] == any);
        }
    }
}

/// Two rows make two types.
proof fn lemma_added_apart(
    s: State,
    types: Seq<u32>,
    dt: u32,
    tn: u32,
    sy: u32,
    rows: Seq<RowV>,
    i: int,
    j: int,
    l: int,
)
    requires
        s.forming(dt, tn, sy),
        unused(s),
        table_ok(s, types, dt),
        entry(types, id::DATATYPE) == dt,
        entry(types, id::SYMBOL) == sy,
        entry(types, id::TYPENAME) == tn,
        0 <= i <= j < l < rows.len(),
        forall|m: int|
            0 <= m < rows.len() ==> (#[trigger] rows[m]).ptrs.len() < 100 && rows[m].id
                != id::DATATYPE && rows[m].id != id::SYMBOL && rows[m].id != id::TYPENAME,
        forall|m: int| j < m < rows.len() ==> (#[trigger] rows[m]).id != rows[j].id,
        forall|m: int| l < m < rows.len() ==> (#[trigger] rows[m]).id != rows[l].id,
    ensures
        ({
            let ts = s.add_types(types, rows, i).1;
            entry(ts, rows[j].id) == NULL || entry(ts, rows[j].id) != entry(ts, rows[l].id)
        }),
    decreases rows.len() - i,
{
    lemma_add_type(s, types, dt, tn, sy, rows[i]);
    let (a, ts1) = s.add_type(types, rows[i]);
    let (e, ts) = s.add_types(types, rows, i);
    lemma_add_types(a, ts1, dt, tn, sy, rows, i + 1);
    if i < j {
        lemma_added_apart(a, ts1, dt, tn, sy, rows, i + 1, j, l);
    } else {
        lemma_added(a, ts1, dt, tn, sy, rows, i + 1, l);
        let v = entry(ts, rows[j].id);
        assert(v == entry(ts1, rows[j].id));
        if v != NULL {
            assert(ts1[rows[j].id as int] == v);
        }
    }
}

#[verifier::rlimit(60)]
#[verifier::spinoff_prover]
proof fn lemma_number_rows()
    ensures
        forall|j: int|
            0 <= j < numbers().len() ==> (#[trigger] numbers()[j]).ptrs.len() < 100
                && numbers()[j].id != id::DATATYPE && numbers()[j].id != id::SYMBOL
                && numbers()[j].id != id::TYPENAME && numbers()[j].id < 23,
        forall|j: int| 7 < j < numbers().len() ==> (#[trigger] numbers()[j]).id != id::BOOL,
        numbers().len() == 22,
        numbers()[7].id == id::BOOL,
        numbers()[7].ptrs.len() == 0,
{
}

#[verifier::rlimit(60)]
#[verifier::spinoff_prover]
proof fn lemma_other_rows()
    ensures
        forall|j: int|
            0 <= j < others().len() ==> (#[trigger] others()[j]).ptrs.len() < 100 && others()[j].id
                != id::DATATYPE && others()[j].id != id::SYMBOL && others()[j].id != id::TYPENAME
                && others()[j].id >= 23,
        others().len() == 12,
        others()[0].id == id::NOTHING && others()[0].ptrs.len() == 0,
        others()[2].id == id::SVEC,
        others()[10].id == id::MODULE && others()[10].ptrs == seq![0u32, 4u32, 8u32],
        forall|j: int| 0 < j < others().len() ==> (#[trigger] others()[j]).id != id::NOTHING,
        forall|j: int| 2 < j < others().len() ==> (#[trigger] others()[j]).id != id::SVEC,
        forall|j: int| 10 < j < others().len() ==> (#[trigger] others()[j]).id != id::MODULE,
{
}

/// What is known of the core types once all rows are done.
pub open spec fn tabled(s: State, types: Seq<u32>) -> bool {
    let dt = entry(types, id::DATATYPE);
    let tn = entry(types, id::TYPENAME);
    let sy = entry(types, id::SYMBOL);
    let bo = entry(types, id::BOOL);
    let no = entry(types, id::NOTHING);
    let sv = entry(types, id::SVEC);
    let mo = entry(types, id::MODULE);
    &&& s.forming(dt, tn, sy)
    &&& unused(s)
    &&& table_ok(s, types, dt)
    &&& laid_out(s, dt, seq![0u32, 4u32, 8u32, 12u32, 16u32])
    &&& laid_out(s, tn, seq![0u32, 4u32, 8u32])
    &&& laid_out(s, sy, Seq::empty())
    &&& laid_out(s, bo, Seq::empty())
    &&& laid_out(s, no, Seq::empty())
    &&& laid_out(s, mo, seq![0u32, 4u32, 8u32])
    &&& bo != dt && bo != tn && bo != sy
    &&& no != dt && no != tn && no != sy && no != bo
    &&& sv != dt && sv != tn && sv != sy && sv != bo && sv != no
    &&& mo != dt && mo != sv
}

/// Whether the types that the others are made of are there.
pub open spec fn has_types(types: Seq<u32>) -> bool {
    &&& entry(types, id::DATATYPE) != NULL
    &&& entry(types, id::TYPENAME) != NULL
    &&& entry(types, id::SYMBOL) != NULL
    &&& entry(types, id::BOOL) != NULL
    &&& entry(types, id::NOTHING) != NULL
    &&& entry(types, id::SVEC) != NULL
    &&& entry(types, id::MODULE) != NULL
}

/// The table is filled as its rows say.
#[verifier::rlimit(60)]
#[verifier::spinoff_prover]
proof fn lemma_tabled(s: State)
    requires
        blank(s),
        ({
            let (s1, t1) = s.first_types();
            let (s2, t2) = s1.add_types(t1, numbers(), 0);
            has_types(s2.add_types(t2, others(), 0).1)
        }),
    ensures
        ({
            let (s1, t1) = s.first_types();
            let (s2, t2) = s1.add_types(t1, numbers(), 0);
            let (s3, t3) = s2.add_types(t2, others(), 0);
            tabled(s3, t3)
        }),
{
    let (s1, t1) = s.first_types();
    let (s2, t2) = s1.add_types(t1, numbers(), 0);
    let (s3, t3) = s2.add_types(t2, others(), 0);
    lemma_number_rows();
    lemma_other_rows();
    lemma_table_len(s1, t1, numbers(), 0, id::DATATYPE);
    lemma_table_len(s1, t1, numbers(), 0, id::SYMBOL);
    lemma_table_len(s1, t1, numbers(), 0, id::TYPENAME);
    lemma_table_len(s2, t2, others(), 0, id::DATATYPE);
    lemma_table_len(s2, t2, others(), 0, id::SYMBOL);
    lemma_table_len(s2, t2, others(), 0, id::TYPENAME);
    let dt = entry(t1, id::DATATYPE);
    let tn = entry(t1, id::TYPENAME);
    let sy = entry(t1, id::SYMBOL);
    lemma_first_types(s);
    lemma_add_types(s1, t1, dt, tn, sy, numbers(), 0);
    lemma_added(s1, t1, dt, tn, sy, numbers(), 0, 7);
    lemma_add_types(s2, t2, dt, tn, sy, others(), 0);
    lemma_added(s2, t2, dt, tn, sy, others(), 0, 0);
    lemma_added(s2, t2, dt, tn, sy, others(), 0, 2);
    lemma_added(s2, t2, dt, tn, sy, others(), 0, 10);
    lemma_added_apart(s2, t2, dt, tn, sy, others(), 0, 0, 2);
    lemma_added_apart(s2, t2, dt, tn, sy, others(), 0, 2, 10);
    let bo = entry(t2, id::BOOL);
    assert(entry(t3, id::BOOL) == bo);
    lemma_stays_trans(s1, s2, s3);
    assert(s3.obj(dt) == s1.obj(dt) && s3.obj(tn) == s1.obj(tn) && s3.obj(sy) == s1.obj(sy));
    lemma_laid_out_stays(s1, s3, dt, seq![0u32, 4u32, 8u32, 12u32, 16u32]);
    lemma_laid_out_stays(s1, s3, tn, seq![0u32, 4u32, 8u32]);
    lemma_laid_out_stays(s1, s3, sy, Seq::empty());
    assert(t2[id::BOOL as int] == bo);
    assert(s2.obj(bo) is Some);
    assert(s3.obj(bo) == s2.obj(bo));
    assert(numbers()[7].ptrs =~= Seq::<u32>::empty());
    assert(others()[0].ptrs =~= Seq::<u32>::empty());
    lemma_laid_out_stays(s2, s3, bo, Seq::empty());
    assert(s2.obj(dt) is Some && s2.obj(tn) is Some && s2.obj(sy) is Some);
}

/// The entries that no row is about stay.
proof fn lemma_table_len(s: State, types: Seq<u32>, rows: Seq<RowV>, i: int, k: u32)
    requires
        0 <= i,
        forall|j: int| 0 <= j < rows.len() ==> (#[trigger] rows[j]).id != k,
    ensures
        entry(s.add_types(types, rows, i).1, k) == entry(types, k),
    decreases rows.len() - i,
{
    reveal(State::add_type);
    if i < rows.len() {
        let (a, ts) = s.add_type(types, rows[i]);
        assert(rows[i].id != k);
        lemma_table_len(a, ts, rows, i + 1, k);
    }
}

/// What is known of the core types stays where their objects do.
proof fn lemma_tabled_stays(s: State, e: State, types: Seq<u32>)
    requires
        tabled(s, types),
        has_types(types),
        stays(s, e),
        e.forming(
            entry(types, id::DATATYPE),
            entry(types, id::TYPENAME),
            entry(types, id::SYMBOL),
        ),
        unused(e),
    ensures
        tabled(e, types),
{
    let dt = entry(types, id::DATATYPE);
    assert forall|k: int| 0 <= k < types.len() && #[trigger] types[k] != NULL implies e.obj(
        types[k],
    ) is Some && e.tag(types[k]) == dt && e.obj(types[k]) == s.obj(types[k]) by {
        assert(s.obj(types[k]) is Some);
        assert(e.obj(types[k]) == s.obj(types[k]));
    }
    lemma_entry(types, id::DATATYPE);
    lemma_entry(types, id::TYPENAME);
    lemma_entry(types, id::SYMBOL);
    lemma_entry(types, id::BOOL);
    lemma_entry(types, id::NOTHING);
    lemma_entry(types, id::MODULE);
    lemma_laid_out_stays(s, e, dt, seq![0u32, 4u32, 8u32, 12u32, 16u32]);
    lemma_laid_out_stays(s, e, entry(types, id::TYPENAME), seq![0u32, 4u32, 8u32]);
    lemma_laid_out_stays(s, e, entry(types, id::SYMBOL), Seq::empty());
    lemma_laid_out_stays(s, e, entry(types, id::BOOL), Seq::empty());
    lemma_laid_out_stays(s, e, entry(types, id::NOTHING), Seq::empty());
    lemma_laid_out_stays(s, e, entry(types, id::MODULE), seq![0u32, 4u32, 8u32]);
}

proof fn lemma_entry(types: Seq<u32>, k: u32)
    ensures
        entry(types, k) != NULL ==> k < types.len() && types[k as int] == entry(types, k),
{
}

/// The supertype of the data type of data types.
#[verifier::rlimit(40)]
proof fn lemma_form_super(s: State, types: Seq<u32>)
    requires
        tabled(s, types),
        has_types(types),
    ensures
        tabled(
            s.with_word(entry(types, id::DATATYPE), 4, entry(types, id::TYPE)),
            types,
        ),
{
    let dt = entry(types, id::DATATYPE);
    let tn = entry(types, id::TYPENAME);
    let sy = entry(types, id::SYMBOL);
    let x = entry(types, id::TYPE);
    let e = s.with_word(dt, 4, x);
    lemma_entry(types, id::TYPE);
    crate::health::lemma_word_only_at(s, dt, 4, x);
    assert(s.forms(dt, dt, tn, sy));
    assert(s.forms_type(dt)) by {
        reveal(State::forms);
    }
    crate::bytes::lemma_word_read_write(s.data(dt), 4, x);
    crate::bytes::lemma_word_read_other(s.data(dt), 4, 0, x);
    crate::bytes::lemma_word_read_other(s.data(dt), 4, 8, x);
    crate::bytes::lemma_word_read_other(s.data(dt), 4, 12, x);
    crate::bytes::lemma_word_read_other(s.data(dt), 4, 16, x);
    crate::bytes::lemma_word_read_other(s.data(dt), 4, 20, x);
    assert forall|y: u32| #[trigger] s.there(y) implies e.there(y) by {
        if y != dt {
            assert(e.obj(y) == s.obj(y));
        }
    }
    assert(e.forms(dt, dt, tn, sy)) by {
        reveal(State::forms);
    }
    lemma_form_write(s, e, dt, dt, tn, sy);
    assert forall|k: int| 0 <= k < types.len() && #[trigger] types[k] != NULL implies e.obj(
        types[k],
    ) is Some && e.tag(types[k]) == dt by {
        if types[k] != dt {
            assert(e.obj(types[k]) == s.obj(types[k]));
        }
    }
    assert(forall|off: u32, k: int| #[trigger] e.layout_word(off, k) == s.layout_word(off, k));
    let bo = entry(types, id::BOOL);
    let no = entry(types, id::NOTHING);
    let mo = entry(types, id::MODULE);
    assert(e.obj(tn) == s.obj(tn) && e.obj(sy) == s.obj(sy) && e.obj(bo) == s.obj(bo) && e.obj(no)
        == s.obj(no) && e.obj(mo) == s.obj(mo));
    lemma_laid_out_stays(s, e, tn, seq![0u32, 4u32, 8u32]);
    lemma_laid_out_stays(s, e, sy, Seq::empty());
    lemma_laid_out_stays(s, e, bo, Seq::empty());
    lemma_laid_out_stays(s, e, no, Seq::empty());
    lemma_laid_out_stays(s, e, mo, seq![0u32, 4u32, 8u32]);
    assert(laid_out(e, dt, seq![0u32, 4u32, 8u32, 12u32, 16u32])) by {
        assert(e.layout(dt) == s.layout(dt));
        let ptrs = seq![0u32, 4u32, 8u32, 12u32, 16u32];
        if s.layout(dt) != NULL {
            assert forall|j: int| 0 <= j < ptrs.len() implies #[trigger] e.layout_word(
                e.layout(dt),
                1 + j,
            ) == ptrs[j] by {
                assert(s.layout_word(s.layout(dt), 1 + j) == ptrs[j]);
            }
        }
    }
}

/// A shared name more.
proof fn lemma_shared_name(s: State, types: Seq<u32>, name: Seq<u8>)
    requires
        tabled(s, types),
        has_types(types),
    ensures
        ({
            let (e, v) = s.name_object(types, name);
            &&& tabled(e, types)
            &&& stays(s, e)
            &&& e.there(v)
            &&& v != NULL ==> s.obj(v) is None && e.tag(v) == entry(types, id::TYPENAME)
        }),
{
    let dt = entry(types, id::DATATYPE);
    let tn = entry(types, id::TYPENAME);
    let sy = entry(types, id::SYMBOL);
    lemma_form_name(s, types, dt, tn, sy, name);
    lemma_tabled_stays(s, s.name_object(types, name).0, types);
}

/// The name of a core type is older than `m`.
pub open spec fn older(s: State, types: Seq<u32>, m: u32) -> bool {
    forall|k: int| 0 <= k < types.len() && #[trigger] types[k] != NULL ==> s.word(types[k], 0) != m
}

proof fn lemma_older(s: State, types: Seq<u32>, m: u32)
    requires
        tabled(s, types),
        m != NULL,
        s.obj(m) is None,
    ensures
        older(s, types, m),
{
    let dt = entry(types, id::DATATYPE);
    let tn = entry(types, id::TYPENAME);
    let sy = entry(types, id::SYMBOL);
    assert forall|k: int| 0 <= k < types.len() && #[trigger] types[k] != NULL implies s.word(
        types[k],
        0,
    ) != m by {
        let t = types[k];
        assert(s.obj(t) is Some && s.tag(t) == dt);
        assert(s.forms(t, dt, tn, sy));
        reveal(State::forms);
        assert(s.there(s.word(t, 0)));
    }
}

proof fn lemma_older_stays(s: State, e: State, types: Seq<u32>, m: u32)
    requires
        older(s, types, m),
        tabled(s, types),
        stays(s, e),
    ensures
        older(e, types, m),
{
    assert forall|k: int| 0 <= k < types.len() && #[trigger] types[k] != NULL implies e.word(
        types[k],
        0,
    ) != m by {
        assert(s.obj(types[k]) is Some);
        assert(e.obj(types[k]) == s.obj(types[k]));
    }
}

/// The state with the shared values made, before the core types are known.
pub open spec fn with_values(s: State, types: Seq<u32>) -> (State, u32, u32) {
    let no = entry(types, id::NOTHING);
    let bo = entry(types, id::BOOL);
    let (a, n) = s.alloc_object(no, 0);
    let (b, f) = a.with_word(no, 16, n).alloc_object(bo, 1);
    let (c, t) = b.alloc_object(bo, 1);
    (c.with_byte(t, 0, 1u8), f, t)
}

/// The objects of the started heap: the core types and their like as they were, and
/// the shared values.
pub open spec fn completed(s: State, e: State, types: Seq<u32>) -> bool {
    let dt = entry(types, id::DATATYPE);
    let no = entry(types, id::NOTHING);
    let bo = entry(types, id::BOOL);
    &&& e.heap_ok()
    &&& forall|v: u32| !(#[trigger] e.is_marked(v))
    &&& s.region.top <= e.region.top
    &&& e.layouts == s.layouts
    &&& e.syms == s.syms
    &&& unused(e)
    &&& forall|v: u32| s.obj(v) is Some && v != no ==> #[trigger] e.obj(v) == s.obj(v)
    &&& e.obj(no) is Some && e.tag(no) == dt && e.data(no).len() == DT_SIZE
    &&& e.word(no, 0) == s.word(no, 0) && e.word(no, 4) == s.word(no, 4) && e.word(no, 8)
        == s.word(no, 8) && e.word(no, 12) == s.word(no, 12) && e.word(no, 20) == s.word(no, 20)
    &&& e.there(e.word(no, 16))
    &&& forall|v: u32|
        #![trigger e.obj(v)]
        e.obj(v) is Some ==> s.obj(v) is Some || e.tag(v) == no || e.tag(v) == bo
}

/// The instance of `Nothing`, held by its type.
#[verifier::rlimit(60)]
#[verifier::spinoff_prover]
proof fn lemma_nothing(s: State, types: Seq<u32>)
    requires
        tabled(s, types),
        has_types(types),
    ensures
        ({
            let no = entry(types, id::NOTHING);
            let (a, n) = s.alloc_object(no, 0);
            let e = a.with_word(no, 16, n);
            completed(s, e, types) && e.builtins is None && e.region.top % 8 == 0
        }),
{
    let dt = entry(types, id::DATATYPE);
    let no = entry(types, id::NOTHING);
    lemma_entry(types, id::NOTHING);
    assert(s.obj(no) is Some && s.tag(no) == dt && s.has_slot(no));
    assert(s.forms(no, dt, entry(types, id::TYPENAME), entry(types, id::SYMBOL)));
    assert(s.forms_type(no)) by {
        reveal(State::forms);
    }
    lemma_raw_alloc(s, no, 0);
    let (a, n) = s.alloc_object(no, 0);
    assert(a.obj(no) == s.obj(no));
    let e = a.with_word(no, 16, n);
    crate::health::lemma_word_only_at(a, no, 16, n);
    assert(e.heap_ok()) by {
        crate::writes::lemma_refs_stay_heap(a, e, no);
    }
    assert forall|v: u32| !(#[trigger] e.is_marked(v)) by {
        assert(!a.is_marked(v));
        if v != no {
            assert(e.obj(v) == a.obj(v));
        }
    }
    crate::bytes::lemma_word_read_write(a.data(no), 16, n);
    crate::bytes::lemma_word_read_other(a.data(no), 16, 0, n);
    crate::bytes::lemma_word_read_other(a.data(no), 16, 4, n);
    crate::bytes::lemma_word_read_other(a.data(no), 16, 8, n);
    crate::bytes::lemma_word_read_other(a.data(no), 16, 12, n);
    crate::bytes::lemma_word_read_other(a.data(no), 16, 20, n);
    assert forall|v: u32| s.obj(v) is Some && v != no implies #[trigger] e.obj(v) == s.obj(v) by {
        assert(e.obj(v) == a.obj(v));
        assert(a.obj(v) == s.obj(v));
    }
    assert forall|v: u32| #![trigger e.obj(v)] e.obj(v) is Some implies s.obj(v) is Some || e.tag(v)
        == no || e.tag(v) == entry(types, id::BOOL) by {
        if v != no {
            assert(e.obj(v) == a.obj(v));
            if v != n {
                assert(a.obj(v) == s.obj(v));
            }
        }
    }
    assert(e.there(n)) by {
        if n != NULL {
            assert(n != no);
            assert(e.obj(n) == a.obj(n));
        }
    }
}

/// One more shared value, of type `Bool`.
proof fn lemma_truth(s: State, a: State, types: Seq<u32>)
    requires
        tabled(s, types),
        has_types(types),
        completed(s, a, types),
        a.builtins is None,
        a.region.top % 8 == 0,
    ensures
        ({
            let bo = entry(types, id::BOOL);
            let (e, v) = a.alloc_object(bo, 1);
            &&& completed(s, e, types)
            &&& e.builtins is None
            &&& e.region.top % 8 == 0
            &&& e.there(v)
            &&& v != NULL ==> s.obj(v) is None && e.tag(v) == bo
            &&& e.obj(NULL) is None
            &&& forall|x: u32| #[trigger] a.there(x) ==> e.there(x)
        }),
{
    let bo = entry(types, id::BOOL);
    let no = entry(types, id::NOTHING);
    lemma_entry(types, id::BOOL);
    assert(s.obj(bo) is Some && s.has_slot(bo));
    lemma_raw_alloc(a, bo, 1);
    let (e, v) = a.alloc_object(bo, 1);
    crate::slots::lemma_empty_places(e, 0, 0);
    assert(e.obj(no) == a.obj(no));
    assert forall|x: u32| #[trigger] a.there(x) implies e.there(x) by {
        if x != v {
            assert(e.obj(x) == a.obj(x));
        }
    }
    assert forall|u: u32| s.obj(u) is Some && u != no implies #[trigger] e.obj(u) == s.obj(u) by {
        assert(a.obj(u) == s.obj(u));
        assert(e.obj(u) == a.obj(u));
    }
    assert forall|u: u32| #![trigger e.obj(u)] e.obj(u) is Some implies s.obj(u) is Some || e.tag(u)
        == no || e.tag(u) == bo by {
        if u != v {
            assert(e.obj(u) == a.obj(u));
        }
    }
    if v != NULL && s.obj(v) is Some {
        assert(v == no || a.obj(v) == s.obj(v));
    }
}

/// The payload of a shared value.
proof fn lemma_truth_set(s: State, c: State, types: Seq<u32>, t: u32)
    requires
        tabled(s, types),
        has_types(types),
        completed(s, c, types),
        c.there(t),
        c.obj(NULL) is None,
        t != NULL ==> s.obj(t) is None && c.tag(t) == entry(types, id::BOOL),
    ensures
        completed(s, c.with_byte(t, 0, 1u8), types),
        forall|x: u32| #[trigger] c.there(x) ==> c.with_byte(t, 0, 1u8).there(x),
{
    let no = entry(types, id::NOTHING);
    let bo = entry(types, id::BOOL);
    lemma_entry(types, id::NOTHING);
    assert(s.obj(no) is Some);
    let e = c.with_byte(t, 0, 1u8);
    if t != NULL {
        assert(only_at(c, e, t)) by {
            assert forall|u: u32| u != t implies #[trigger] e.obj(u) == c.obj(u) by {
                if c.has_slot(u) && c.has_slot(t) {
                    assert(u / 8 != t / 8);
                }
            }
        }
        crate::writes::lemma_refs_stay_heap(c, e, t);
        assert(e.obj(no) == c.obj(no));
        assert forall|x: u32| #[trigger] c.there(x) implies e.there(x) by {
            if x != t {
                assert(e.obj(x) == c.obj(x));
            }
        }
        assert forall|v: u32| !(#[trigger] e.is_marked(v)) by {
            assert(!c.is_marked(v));
            if v != t {
                assert(e.obj(v) == c.obj(v));
            }
        }
        assert forall|u: u32| s.obj(u) is Some && u != no implies #[trigger] e.obj(u) == s.obj(
            u,
        ) by {
            assert(c.obj(u) == s.obj(u));
            assert(e.obj(u) == c.obj(u));
        }
        assert forall|u: u32| #![trigger e.obj(u)] e.obj(u) is Some implies s.obj(u) is Some
            || e.tag(u) == no || e.tag(u) == bo by {
            if u != t {
                assert(e.obj(u) == c.obj(u));
            }
        }
    }
}

/// The shared values.
proof fn lemma_with_values(s: State, types: Seq<u32>)
    requires
        tabled(s, types),
        has_types(types),
    ensures
        ({
            let (e, f, t) = with_values(s, types);
            completed(s, e, types) && e.there(f) && e.there(t) && e.builtins is None
        }),
{
    let no = entry(types, id::NOTHING);
    let bo = entry(types, id::BOOL);
    let (a, n) = s.alloc_object(no, 0);
    let a1 = a.with_word(no, 16, n);
    lemma_nothing(s, types);
    lemma_truth(s, a1, types);
    let (b, f) = a1.alloc_object(bo, 1);
    lemma_truth(s, b, types);
    let (c, t) = b.alloc_object(bo, 1);
    assert(c.there(f));
    lemma_truth_set(s, c, types, t);
}

// --- the started heap -------------------------------------------------------

/// Whether the core types that others are made of are there, with their layouts, and
/// the name of buffer types.
pub open spec fn furnished(e: State) -> bool {
    &&& e.builtins matches Some(b) && has_types(b.types)
    &&& e.layout(e.builtin(id::DATATYPE)) != NULL
    &&& e.layout(e.builtin(id::TYPENAME)) != NULL
    &&& e.layout(e.builtin(id::MODULE)) != NULL
    &&& e.tuple_name() != NULL
    &&& e.shared_name(3) != NULL
    &&& e.shared_name(4) != NULL
}

/// Whether the names of tuple, buffer and array types are there and have no types yet.
pub open spec fn named(e: State) -> bool {
    &&& e.fit_name(e.tuple_name()) && e.word(e.tuple_name(), 4) == NULL
    &&& e.fit_name(e.shared_name(3)) && e.word(e.shared_name(3), 4) == NULL
    &&& e.fit_name(e.shared_name(4)) && e.word(e.shared_name(4), 4) == NULL
    &&& e.tuple_name() != e.shared_name(3) && e.tuple_name() != e.shared_name(4)
    &&& e.shared_name(3) != e.shared_name(4)
    &&& array_laid_out(e)
}

/// A name of the started heap.
proof fn lemma_started_name(s: State, e: State, types: Seq<u32>, n: u32)
    requires
        tabled(s, types),
        has_types(types),
        e.builtins matches Some(b) && b.types == types,
        completed(s, State { builtins: None, ..e }, types),
        n != NULL,
        s.obj(n) is Some,
        s.tag(n) == entry(types, id::TYPENAME),
        crate::definitions::core_root(e, n),
    ensures
        e.fit_name(n),
        e.word(n, 4) == NULL,
{
    let dt = entry(types, id::DATATYPE);
    let tn = entry(types, id::TYPENAME);
    let sy = entry(types, id::SYMBOL);
    let c = State { builtins: None, ..e };
    assert(s.forms(n, dt, tn, sy));
    lemma_entry(types, id::NOTHING);
    assert(s.tag(entry(types, id::NOTHING)) == dt);
    assert(c.obj(n) == s.obj(n));
    assert(c.obj(n) == e.obj(n));
    assert(s.forms_name(n)) by {
        reveal(State::forms);
    }
    assert(root(e, n));
    lemma_root(e, n);
}

/// The data type `t` of the started heap.
proof fn lemma_started_type(s: State, e: State, types: Seq<u32>, k: u32, ptrs: Seq<u32>)
    requires
        tabled(s, types),
        has_types(types),
        older(s, types, e.shared_name(3)),
        e.builtins matches Some(b) && b.types == types,
        completed(s, State { builtins: None, ..e }, types),
        entry(types, k) != NULL,
        laid_out(s, entry(types, k), ptrs),
        ptrs.len() == 0 || e.layout(entry(types, k)) != NULL,
        forall|i: int| 0 <= i < ptrs.len() ==> #[trigger] ptrs[i] == 4 * i,
    ensures
        e.obj(entry(types, k)) is Some,
        e.tag(entry(types, k)) == entry(types, id::DATATYPE),
        e.holds_refs(entry(types, k), ptrs.len() as int),
{
    let t = entry(types, k);
    let c = State { builtins: None, ..e };
    let no = entry(types, id::NOTHING);
    lemma_entry(types, k);
    assert(s.obj(t) is Some);
    assert(forall|u: u32| #[trigger] c.obj(u) == e.obj(u));
    assert(e.word(t, 0) == s.word(t, 0) && e.word(t, 20) == s.word(t, 20)) by {
        if t != no {
            assert(c.obj(t) == s.obj(t));
        }
    }
    assert(s.word(types[k as int], 0) != e.shared_name(3));
    assert(forall|off: u32, j: int| #[trigger] e.layout_word(off, j) == s.layout_word(off, j));
    if ptrs.len() > 0 {
        assert forall|i: int| 0 <= i < ptrs.len() implies #[trigger] e.layout_ptr_offset(t, i) == 4
            * i by {
            assert(s.layout_word(s.layout(t), 1 + i) == ptrs[i]);
        }
    }
}

/// The core types describe their instances.
proof fn lemma_started_described(s: State, e: State, types: Seq<u32>)
    requires
        tabled(s, types),
        has_types(types),
        older(s, types, e.shared_name(3)),
        e.builtins matches Some(b) && b.types == types,
        completed(s, State { builtins: None, ..e }, types),
        furnished(e),
    ensures
        e.described(),
{
    let five = seq![0u32, 4u32, 8u32, 12u32, 16u32];
    let three = seq![0u32, 4u32, 8u32];
    let none = Seq::<u32>::empty();
    lemma_started_type(s, e, types, id::DATATYPE, five);
    lemma_started_type(s, e, types, id::TYPENAME, three);
    lemma_started_type(s, e, types, id::SYMBOL, none);
    lemma_started_type(s, e, types, id::MODULE, three);
    lemma_entry(types, id::SVEC);
    let sv = entry(types, id::SVEC);
    assert(s.obj(sv) is Some);
    assert(State { builtins: None, ..e }.obj(sv) == s.obj(sv));
    assert(State { builtins: None, ..e }.obj(sv) == e.obj(sv));
}

/// Every object of the started heap is well typed and references objects.
#[verifier::rlimit(60)]
#[verifier::spinoff_prover]
proof fn lemma_started_local(s: State, e: State, types: Seq<u32>, v: u32)
    requires
        tabled(s, types),
        has_types(types),
        older(s, types, e.shared_name(3)),
        e.builtins matches Some(b) && b.types == types,
        completed(s, State { builtins: None, ..e }, types),
        furnished(e),
        e.obj(v) is Some,
    ensures
        e.local(v),
{
    let dt = entry(types, id::DATATYPE);
    let tn = entry(types, id::TYPENAME);
    let sy = entry(types, id::SYMBOL);
    let no = entry(types, id::NOTHING);
    let bo = entry(types, id::BOOL);
    let c = State { builtins: None, ..e };
    let none = Seq::<u32>::empty();
    assert(forall|u: u32| #[trigger] c.obj(u) == e.obj(u));
    assert(forall|u: u32| #[trigger] c.there(u) == e.there(u));
    lemma_started_described(s, e, types);
    lemma_started_type(s, e, types, id::SYMBOL, none);
    lemma_started_type(s, e, types, id::NOTHING, none);
    lemma_started_type(s, e, types, id::BOOL, none);
    assert forall|x: u32| #[trigger] s.there(x) implies e.there(x) by {
        if x != NULL && x != no {
            assert(c.obj(x) == s.obj(x));
        }
    }
    if s.obj(v) is Some {
        assert(s.forms(v, dt, tn, sy));
        reveal(State::forms);
        lemma_entry(types, id::NOTHING);
        assert(s.tag(no) == dt);
        if v != no {
            assert(c.obj(v) == s.obj(v));
        }
        if e.tag(v) == dt {
            assert(v == no || e.forms_type(v));
            lemma_plain_refs(e, v, 5);
            assert forall|x: u32| #[trigger] e.refs_of(v).contains(x) && x != NULL implies e.obj(
                x,
            ) is Some by {
                let k = choose|k: int| 0 <= k < e.refs_of(v).len() && e.refs_of(v)[k] == x;
                if k > 0 {
                    assert(x == e.word(v, 4 * (k - 1)));
                    assert(k == 1 || k == 2 || k == 3 || k == 4 || k == 5);
                    assert(e.there(x));
                }
            }
        } else if e.tag(v) == tn {
            lemma_plain_refs(e, v, 3);
            assert forall|x: u32| #[trigger] e.refs_of(v).contains(x) && x != NULL implies e.obj(
                x,
            ) is Some by {
                let k = choose|k: int| 0 <= k < e.refs_of(v).len() && e.refs_of(v)[k] == x;
                if k > 0 {
                    assert(x == e.word(v, 4 * (k - 1)));
                    assert(k == 1 || k == 2 || k == 3);
                    assert(e.there(x));
                }
            }
        } else {
            lemma_plain_refs(e, v, 0);
        }
    } else {
        assert(e.tag(v) == no || e.tag(v) == bo);
        lemma_plain_refs(e, v, 0);
    }
}

/// The started heap is in order.
proof fn lemma_started(s: State, e: State, types: Seq<u32>)
    requires
        tabled(s, types),
        has_types(types),
        older(s, types, e.shared_name(3)),
        e.builtins matches Some(b) && b.types == types && s.there(b.tuple_typename) && s.there(
            b.box_typename,
        ) && s.there(b.pair_typename) && s.there(b.type_typename) && s.there(b.memory_typename)
            && s.there(b.array_typename) && e.there(b.true_instance) && e.there(b.false_instance),
        completed(s, State { builtins: None, ..e }, types),
        furnished(e),
    ensures
        e.in_order(),
{
    reveal(State::in_order);
    let c = State { builtins: None, ..e };
    let no = entry(types, id::NOTHING);
    assert(forall|u: u32| #[trigger] c.obj(u) == e.obj(u));
    assert(c.heap_ok());
    assert forall|v: u32| !(#[trigger] e.is_marked(v)) by {
        assert(!c.is_marked(v));
    }
    assert(e.pools_ok()) by {
        assert(c.pools_ok());
        assert forall|a: int, k: int|
            #![trigger e.pools[a].page_q[k]]
            0 <= a < e.pools.len() && 0 <= k < e.pools[a].page_q.len() implies ({
            let i = e.pools[a].page_q[k] as int;
            i < e.pages.len() && e.pages[i].in_use && e.pages[i].osize == e.pools[a].osize
        }) by {
            assert(c.pools[a].page_q[k] == e.pools[a].page_q[k]);
        }
        assert forall|a: int, b: int| 0 <= a < b < e.pools.len() implies (
        #[trigger] e.pools[a]).osize != (#[trigger] e.pools[b]).osize by {
            assert(c.pools[a].osize != c.pools[b].osize);
        }
    }
    assert(e.free_pages_ok()) by {
        assert(c.free_pages_ok());
        assert forall|k: int| 0 <= k < e.free_pages.len() implies (#[trigger] e.free_pages[k])
            < e.pages.len() && !e.pages[e.free_pages[k] as int].in_use by {
            assert(c.free_pages[k] == e.free_pages[k]);
        }
    }
    assert(e.slots_ok()) by {
        crate::slots::lemma_same_pages(c, e);
    }
    crate::slots::lemma_same_tell(c, e);
    assert(e.heap_ok()) by {
        assert forall|k: int| 0 <= k < e.remembered.len() implies e.is_marked(
            #[trigger] e.remembered[k],
        ) by {
            assert(c.is_marked(c.remembered[k]));
        }
    }
    crate::slots::lemma_empty_places(e, 0, 0);
    lemma_started_described(s, e, types);
    assert forall|v: u32| e.obj(v) is Some implies #[trigger] e.good(v) by {
        assert forall|w: u32| #[trigger] e.reaches(v, w) implies e.local(w) by {
            crate::health::lemma_reaches_ends(e, v, w);
            lemma_started_local(s, e, types, w);
        }
        lemma_local_good(e, v);
    }
    assert forall|x: u32| #[trigger] s.there(x) implies e.there(x) by {
        if x != NULL && x != no {
            assert(c.obj(x) == s.obj(x));
        }
    }
    assert forall|r: u32| #[trigger] e.root_list().contains(r) implies e.good(r) by {
        lemma_root(e, r);
        assert(e.there(r)) by {
            if crate::definitions::core_root(e, r) {
                if types.contains(r) {
                    let k = choose|k: int| 0 <= k < types.len() && types[k] == r;
                    assert(s.there(types[k]));
                }
            } else if exists|i: int| 0 <= i < e.syms.len() && (#[trigger] e.syms[i]).off == r {
                let i = choose|i: int| 0 <= i < e.syms.len() && (#[trigger] e.syms[i]).off == r;
                assert(s.there(s.syms[i].off));
            }
        }
    }
}

/// The six shared names, in the order in which they are made, and the layout of arrays.
pub open spec fn with_names(s: State, types: Seq<u32>) -> (State, Seq<u32>, u32) {
    let (a1, n1) = s.name_object(types, utf8("Tuple"));
    let (a2, n2) = a1.name_object(types, utf8("Box"));
    let (a3, n3) = a2.name_object(types, utf8("Pair"));
    let (a4, n4) = a3.name_object(types, utf8("Type"));
    let (a5, n5) = a4.name_object(types, utf8("GenericMemory"));
    let (a6, n6) = a5.name_object(types, utf8("Array"));
    let (a7, l) = a6.make_layout(seq![0u32]);
    (a7, seq![n1, n2, n3, n4, n5, n6], l)
}

/// Whether the table of core types is filled.
#[verifier::opaque]
pub open spec fn filled(s: State, types: Seq<u32>) -> bool {
    tabled(s, types) && has_types(types)
}

/// Whether `n` is no value or a name.
#[verifier::opaque]
pub open spec fn known(s: State, types: Seq<u32>, n: u32) -> bool {
    s.there(n) && (n != NULL ==> s.tag(n) == entry(types, id::TYPENAME))
}

/// Whether the name `n` is all that was made between two states.
#[verifier::opaque]
pub open spec fn one_more(s: State, e: State, types: Seq<u32>, n: u32) -> bool {
    &&& filled(s, types)
    &&& stays(s, e)
    &&& n != NULL ==> s.obj(n) is None
}

proof fn lemma_one_more(s: State, types: Seq<u32>, name: Seq<u8>)
    requires
        filled(s, types),
    ensures
        ({
            let (e, n) = s.name_object(types, name);
            one_more(s, e, types, n) && filled(e, types) && known(e, types, n)
        }),
{
    reveal(filled);
    reveal(known);
    reveal(one_more);
    lemma_shared_name(s, types, name);
}

proof fn lemma_known(s: State, e: State, types: Seq<u32>, n: u32, m: u32)
    requires
        one_more(s, e, types, n),
        known(s, types, m),
    ensures
        known(e, types, m),
        m != NULL ==> m != n,
{
    reveal(known);
    reveal(one_more);
    if m != NULL {
        assert(e.obj(m) == s.obj(m));
    }
}

proof fn lemma_last_name(s: State, e: State, types: Seq<u32>, n: u32)
    requires
        one_more(s, e, types, n),
        n != NULL,
    ensures
        older(e, types, n),
{
    reveal(one_more);
    reveal(filled);
    lemma_older(s, types, n);
    lemma_older_stays(s, e, types, n);
}

proof fn lemma_still_older(s: State, e: State, types: Seq<u32>, n: u32, m: u32)
    requires
        one_more(s, e, types, n),
        older(s, types, m),
    ensures
        older(e, types, m),
{
    reveal(one_more);
    reveal(filled);
    lemma_older_stays(s, e, types, m);
}

proof fn lemma_array_layout(s: State, types: Seq<u32>)
    requires
        filled(s, types),
    ensures
        ({
            let (e, l) = s.make_layout(seq![0u32]);
            &&& one_more(s, e, types, NULL)
            &&& filled(e, types)
            &&& l < e.region.top
            &&& l != NULL ==> lists(e, l, seq![0u32])
        }),
{
    reveal(filled);
    reveal(one_more);
    let dt = entry(types, id::DATATYPE);
    let tn = entry(types, id::TYPENAME);
    let sy = entry(types, id::SYMBOL);
    lemma_form_layout(s, dt, tn, sy, seq![0u32]);
    lemma_tabled_stays(s, s.make_layout(seq![0u32]).0, types);
}

/// The shared names are there, and no two of those that are filled in later are the same.
#[verifier::opaque]
pub open spec fn all_named(e: State, types: Seq<u32>, ns: Seq<u32>, l: u32) -> bool {
    &&& filled(e, types)
    &&& forall|k: int| 0 <= k < 6 ==> known(e, types, #[trigger] ns[k])
    &&& ns[4] != NULL ==> older(e, types, ns[4])
    &&& ns[0] != NULL ==> ns[0] != ns[4] && ns[0] != ns[5]
    &&& ns[4] != NULL ==> ns[4] != ns[5]
    &&& l != NULL ==> lists(e, l, seq![0u32])
    &&& l < e.region.top
}

#[verifier::rlimit(40)]
proof fn lemma_with_names(s: State, types: Seq<u32>)
    requires
        filled(s, types),
    ensures
        ({
            let (e, ns, l) = with_names(s, types);
            all_named(e, types, ns, l)
        }),
{
    reveal(all_named);
    let (a1, n1) = s.name_object(types, utf8("Tuple"));
    lemma_one_more(s, types, utf8("Tuple"));
    let (a2, n2) = a1.name_object(types, utf8("Box"));
    lemma_one_more(a1, types, utf8("Box"));
    let (a3, n3) = a2.name_object(types, utf8("Pair"));
    lemma_one_more(a2, types, utf8("Pair"));
    let (a4, n4) = a3.name_object(types, utf8("Type"));
    lemma_one_more(a3, types, utf8("Type"));
    let (a5, n5) = a4.name_object(types, utf8("GenericMemory"));
    lemma_one_more(a4, types, utf8("GenericMemory"));
    let (a6, n6) = a5.name_object(types, utf8("Array"));
    lemma_one_more(a5, types, utf8("Array"));
    let (a7, l) = a6.make_layout(seq![0u32]);
    lemma_array_layout(a6, types);
    lemma_known(a1, a2, types, n2, n1);
    lemma_known(a2, a3, types, n3, n1);
    lemma_known(a2, a3, types, n3, n2);
    lemma_known(a3, a4, types, n4, n1);
    lemma_known(a3, a4, types, n4, n2);
    lemma_known(a3, a4, types, n4, n3);
    lemma_known(a4, a5, types, n5, n1);
    lemma_known(a4, a5, types, n5, n2);
    lemma_known(a4, a5, types, n5, n3);
    lemma_known(a4, a5, types, n5, n4);
    lemma_known(a5, a6, types, n6, n1);
    lemma_known(a5, a6, types, n6, n2);
    lemma_known(a5, a6, types, n6, n3);
    lemma_known(a5, a6, types, n6, n4);
    lemma_known(a5, a6, types, n6, n5);
    lemma_known(a6, a7, types, NULL, n1);
    lemma_known(a6, a7, types, NULL, n2);
    lemma_known(a6, a7, types, NULL, n3);
    lemma_known(a6, a7, types, NULL, n4);
    lemma_known(a6, a7, types, NULL, n5);
    lemma_known(a6, a7, types, NULL, n6);
    if n5 != NULL {
        lemma_last_name(a4, a5, types, n5);
        lemma_still_older(a5, a6, types, n6, n5);
        lemma_still_older(a6, a7, types, NULL, n5);
    }
}

/// The shared values beside the shared names.
pub open spec fn founded(s: State, types: Seq<u32>) -> State {
    let (a, ns, l) = with_names(s, types);
    let (v, f, t) = with_values(a, types);
    State {
        builtins: Some(
            BuiltinsV {
                types,
                true_instance: t,
                false_instance: f,
                tuple_typename: ns[0],
                box_typename: ns[1],
                pair_typename: ns[2],
                type_typename: ns[3],
                memory_typename: ns[4],
                array_typename: ns[5],
                array_layout: l,
            },
        ),
        ..v
    }
}

/// Whether `e` is the started heap over the shared names `ns` of `a`.
#[verifier::opaque]
pub open spec fn founds(a: State, types: Seq<u32>, ns: Seq<u32>, l: u32, e: State) -> bool {
    &&& completed(a, State { builtins: None, ..e }, types)
    &&& e.builtins matches Some(b) && b.types == types && e.there(b.true_instance) && e.there(
        b.false_instance,
    ) && b.tuple_typename == ns[0] && b.box_typename == ns[1] && b.pair_typename == ns[2]
        && b.type_typename == ns[3] && b.memory_typename == ns[4] && b.array_typename == ns[5]
        && b.array_layout == l
}

proof fn lemma_founds(s: State, types: Seq<u32>)
    requires
        filled(with_names(s, types).0, types),
    ensures
        ({
            let (a, ns, l) = with_names(s, types);
            founds(a, types, ns, l, founded(s, types))
        }),
{
    reveal(founds);
    reveal(filled);
    let (a, ns, l) = with_names(s, types);
    lemma_with_values(a, types);
    let (v, f, t) = with_values(a, types);
    let e = founded(s, types);
    let c = State { builtins: None, ..e };
    assert(c =~= State { builtins: None, ..v });
    lemma_completed_same(a, v, c, types);
    assert(forall|u: u32| #[trigger] e.obj(u) == v.obj(u));
}

/// The started heap is in order.
#[verifier::rlimit(60)]
#[verifier::spinoff_prover]
proof fn lemma_founded(a: State, ns: Seq<u32>, l: u32, types: Seq<u32>, e: State)
    requires
        all_named(a, types, ns, l),
        founds(a, types, ns, l, e),
        furnished(e),
    ensures
        e.in_order(),
        unused(e),
{
    reveal(all_named);
    reveal(founds);
    reveal(filled);
    assert(a.there(ns[0]) && a.there(ns[1]) && a.there(ns[2]) && a.there(ns[3]) && a.there(ns[4])
        && a.there(ns[5])) by {
        reveal(known);
        assert(known(a, types, ns[0]) && known(a, types, ns[1]) && known(a, types, ns[2]));
        assert(known(a, types, ns[3]) && known(a, types, ns[4]) && known(a, types, ns[5]));
    }
    lemma_started(a, e, types);
    assert(unused(State { builtins: None, ..e }));
}

/// The shared names of the started heap are there.
#[verifier::rlimit(60)]
#[verifier::spinoff_prover]
proof fn lemma_founded_names(a: State, ns: Seq<u32>, l: u32, types: Seq<u32>, e: State)
    requires
        all_named(a, types, ns, l),
        founds(a, types, ns, l, e),
        furnished(e),
    ensures
        named(e),
{
    reveal(all_named);
    assert(e.tuple_name() == ns[0] && e.shared_name(3) == ns[4] && e.shared_name(4) == ns[5]
        && e.array_layout() == l) by {
        reveal(founds);
    }
    lemma_founded_name(a, ns, l, types, e, 0);
    lemma_founded_name(a, ns, l, types, e, 4);
    lemma_founded_name(a, ns, l, types, e, 5);
    assert(array_laid_out(e)) by {
        reveal(founds);
        assert(forall|off: u32, k: int| #[trigger] e.layout_word(off, k) == a.layout_word(off, k));
        if l != NULL {
            assert(seq![0u32].len() == 1 && seq![0u32][0] == 0);
            assert(a.layout_word(l, 1 + 0int) == seq![0u32][0]);
        }
    }
}

proof fn lemma_founded_name(a: State, ns: Seq<u32>, l: u32, types: Seq<u32>, e: State, k: int)
    requires
        all_named(a, types, ns, l),
        founds(a, types, ns, l, e),
        k == 0 || k == 4 || k == 5,
        ns[k] != NULL,
    ensures
        e.fit_name(ns[k]),
        e.word(ns[k], 4) == NULL,
{
    reveal(all_named);
    reveal(founds);
    reveal(filled);
    assert(known(a, types, ns[k]));
    assert(a.there(ns[k]) && a.tag(ns[k]) == entry(types, id::TYPENAME)) by {
        reveal(known);
    }
    lemma_started_name(a, e, types, ns[k]);
}

proof fn lemma_shared_values(s: State, types: Seq<u32>)
    ensures
        s.shared_values(types) == founded(s, types),
{
    reveal(State::shared_values);
}

/// Once the core types are made the heap is in order, where it had room for the types
/// that others are made of.
#[verifier::rlimit(40)]
#[verifier::spinoff_prover]
proof fn lemma_core_types(s: State)
    requires
        blank(State { syms: Seq::empty(), structs: Seq::empty(), builtins: None, ..s }),
        furnished(s.core_types()),
    ensures
        s.core_types().in_order(),
        unused(s.core_types()),
        named(s.core_types()),
{
    reveal(State::core_types);
    let s0 = State { syms: Seq::empty(), structs: Seq::empty(), builtins: None, ..s };
    let (s1, t1) = s0.first_types();
    let (s2, t2) = s1.add_types(t1, numbers(), 0);
    let (s3, ts) = s2.add_types(t2, others(), 0);
    let e = s.core_types();
    let a = s3.with_word(entry(ts, id::DATATYPE), 4, entry(ts, id::TYPE));
    lemma_shared_values(a, ts);
    assert(e == founded(a, ts));
    assert(has_types(ts));
    assert(filled(a, ts)) by {
        reveal(filled);
        lemma_tabled(s0);
        lemma_form_super(s3, ts);
    }
    let (a7, ns, l) = with_names(a, ts);
    lemma_with_names(a, ts);
    assert(filled(a7, ts)) by {
        reveal(all_named);
    }
    lemma_founds(a, ts);
    lemma_founded(a7, ns, l, ts, e);
    lemma_founded_names(a7, ns, l, ts, e);
}

/// What is known of the started heap does not rest on the core types' being known.
proof fn lemma_completed_same(s: State, v: State, e: State, types: Seq<u32>)
    requires
        completed(s, v, types),
        e == (State { builtins: None, ..v }),
        v.builtins is None,
    ensures
        completed(s, e, types),
{
    assert(e =~= v);
}

// --- exceptions -------------------------------------------------------------

/// Recording a core type that references are not found by.
#[verifier::rlimit(40)]
proof fn lemma_with_builtin(s: State, k: u32, t: u32)
    requires
        s.in_order(),
        s.good(t),
        k != id::DATATYPE && k != id::SVEC && k != id::TYPENAME && k != id::SYMBOL && k
            != id::MODULE,
    ensures
        s.with_builtin(k, t).in_order(),
        s.with_builtin(k, t) == (State { builtins: s.with_builtin(k, t).builtins, ..s }),
        forall|x: u32| #[trigger] s.good(x) ==> s.with_builtin(k, t).good(x),
{
    reveal(State::in_order);
    let e = s.with_builtin(k, t);
    crate::slots::lemma_empty_places(s, 0, 0);
    assert(forall|v: u32| #[trigger] e.obj(v) == s.obj(v));
    assert(forall|off: u32, j: int| #[trigger] e.layout_word(off, j) == s.layout_word(off, j));
    assert(like(s, e));
    assert(e.slots_ok()) by {
        crate::slots::lemma_same_pages(s, e);
    }
    crate::slots::lemma_same_tell(s, e);
    assert forall|x: u32| #[trigger] s.good(x) implies e.good(x) by {
        crate::health::lemma_same_good(s, e, x);
    }
    assert(e.heap_ok()) by {
        assert forall|j: int| 0 <= j < e.remembered.len() implies e.is_marked(
            #[trigger] e.remembered[j],
        ) by {
            assert(s.is_marked(s.remembered[j]));
        }
        assert forall|v: u32| #[trigger]
            e.is_marked(v) && !e.is_old(v) implies e.remembered.contains(v) by {
            assert(s.is_marked(v));
        }
        assert forall|v: u32| #[trigger]
            e.is_marked(v) && !e.remembered.contains(v) implies e.refs_marked(v, e) by {
            assert(s.is_marked(v));
            assert(s.good(v));
            assert(crate::health::reach_kept(s, e, v)) by {
                assert forall|u: u32| #[trigger] s.reaches(v, u) implies s.kept(e, u) by {
                    crate::health::lemma_reaches_ends(s, v, u);
                }
            }
            crate::health::lemma_kept_good(s, e, v);
            crate::survival::lemma_reaches_self(s, v);
            assert(e.refs_of(v) == s.refs_of(v));
            assert(s.refs_marked(v, s));
            assert forall|i: int|
                0 <= i < e.refs_of(v).len() && e.obj(
                    #[trigger] e.refs_of(v)[i],
                ) is Some implies e.is_marked(e.refs_of(v)[i]) by {
                assert(s.obj(s.refs_of(v)[i]) is Some);
                assert(s.is_marked(s.refs_of(v)[i]));
            }
        }
    }
    assert forall|r: u32| #[trigger] e.root_list().contains(r) implies e.good(r) by {
        lemma_root(e, r);
        if r != t {
            assert(root(s, r)) by {
                if crate::definitions::core_root(e, r) {
                    match (s.builtins, e.builtins) {
                        (Some(b), Some(c)) => {
                            if c.types.contains(r) {
                                let i = choose|i: int| 0 <= i < c.types.len() && c.types[i] == r;
                                assert(b.types[i] == r);
                            }
                        },
                        _ => {},
                    }
                    assert(crate::definitions::core_root(s, r));
                }
            }
            lemma_root(s, r);
        }
        assert(s.good(r));
    }
    assert forall|v: u32| #[trigger] e.is_marked(v) implies e.good(v) by {
        assert(s.is_marked(v));
        assert(s.good(v));
    }
    crate::writes::lemma_holds_kept(s, e, s.builtin(id::DATATYPE), 5);
    crate::writes::lemma_holds_kept(s, e, s.builtin(id::TYPENAME), 3);
    crate::writes::lemma_holds_kept(s, e, s.builtin(id::SYMBOL), 0);
    crate::writes::lemma_holds_kept(s, e, s.builtin(id::MODULE), 3);
}

/// An exception type keeps a heap in order.
proof fn lemma_add_exception(s: State, k: u32, name: Seq<u8>, fields: Seq<Seq<u8>>)
    requires
        s.in_order(),
        id::DIVIDEERROR <= k <= id::ERROREXCEPTION,
    ensures
        ({
            let e = s.add_exception(k, name, fields);
            &&& e.in_order()
            &&& unused(s) ==> unused(e)
            &&& forall|v: u32| #[trigger] s.rooted(v) ==> s.kept(e, v)
            &&& s.builtins matches Some(b) && e.builtins matches Some(c) && c
                == (BuiltinsV { types: c.types, ..b })
            &&& e.builtin(id::TYPENAME) == s.builtin(id::TYPENAME)
            &&& named(s) ==> named(e)
        }),
{
    reveal(State::add_exception);
    let any = s.builtin(id::ANY);
    let ex = s.builtin(id::EXCEPTION);
    let fs = fields.map_values(|f: Seq<u8>| (f, any));
    crate::definitions::lemma_core_good(s, id::ANY);
    crate::definitions::lemma_core_good(s, id::EXCEPTION);
    assert forall|i: int| 0 <= i < fs.len() implies s.good((#[trigger] fs[i]).1) by {
        assert(fs[i].1 == any);
    }
    lemma_define_struct(s, name, ex, fs, false);
    let (a, t) = s.define_struct(name, ex, fs, false);
    lemma_with_builtin(a, k, t);
    let e = a.with_builtin(k, t);
    assert(forall|u: u32| #[trigger] e.obj(u) == a.obj(u));
    assert forall|v: u32| #[trigger] s.rooted(v) implies s.kept(e, v) by {
        crate::definitions::lemma_rooted_kept(s, a, v);
    }
    assert(s.builtins is Some) by {
        reveal(State::in_order);
    }
    if named(s) {
        crate::instances::lemma_grows(s, a);
        lemma_named_stays(s, e, s.tuple_name());
        lemma_named_stays(s, e, s.shared_name(3));
        lemma_named_stays(s, e, s.shared_name(4));
        assert(array_laid_out(e)) by {
            assert(forall|off: u32, j: int| #[trigger]
                e.layout_word(off, j) == a.layout_word(off, j));
        }
    }
}

proof fn lemma_named_stays(s: State, e: State, n: u32)
    requires
        s.in_order(),
        s.fit_name(n),
        s.word(n, 4) == NULL,
        forall|v: u32| #[trigger] s.rooted(v) ==> s.kept(e, v),
        e.builtin(id::TYPENAME) == s.builtin(id::TYPENAME),
        n == e.tuple_name() || n == e.shared_name(3) || n == e.shared_name(4),
        e.builtins is Some,
    ensures
        e.fit_name(n),
        e.word(n, 4) == NULL,
{
    crate::definitions::lemma_root_rooted(s, n);
    assert(s.kept(e, n));
    assert(root(e, n));
    lemma_root(e, n);
}

/// A runtime that was bootstrapped is in order.
proof fn lemma_bootstrap(s: State)
    requires
        blank(State { syms: Seq::empty(), structs: Seq::empty(), builtins: None, ..s }),
        furnished(s.core_types()),
    ensures
        s.bootstrap().in_order(),
        unused(s.bootstrap()),
        named(s.bootstrap()),
{
    reveal(State::bootstrap);
    lemma_core_types(s);
    let none = Seq::<Seq<u8>>::empty();
    let a = s.core_types();
    lemma_add_exception(a, id::DIVIDEERROR, utf8("DivideError"), none);
    let b = a.add_exception(id::DIVIDEERROR, utf8("DivideError"), none);
    lemma_add_exception(b, id::UNDEFREFERROR, utf8("UndefRefError"), none);
    let c = b.add_exception(id::UNDEFREFERROR, utf8("UndefRefError"), none);
    lemma_add_exception(c, id::OUTOFMEMORYERROR, utf8("OutOfMemoryError"), none);
    let d = c.add_exception(id::OUTOFMEMORYERROR, utf8("OutOfMemoryError"), none);
    let two = seq![utf8("a"), utf8("i")];
    lemma_add_exception(d, id::BOUNDSERROR, utf8("BoundsError"), two);
    let e = d.add_exception(id::BOUNDSERROR, utf8("BoundsError"), two);
    lemma_add_exception(e, id::ERROREXCEPTION, utf8("ErrorException"), seq![utf8("msg")]);
}

/// The state in which the core types are made.
pub open spec fn cleared(s: State) -> State {
    s.region_init().reset_heap().dispatch_reset()
}

/// The state in which the main module is made: its name is interned.
pub open spec fn main_named(s: State) -> State {
    let b = State { exc: Seq::empty(), ..cleared(s).bootstrap() };
    b.intern(b.builtin(id::SYMBOL), utf8("Main")).0
}

/// The name of the main module.
pub open spec fn main_name(s: State) -> u32 {
    let b = State { exc: Seq::empty(), ..cleared(s).bootstrap() };
    b.intern(b.builtin(id::SYMBOL), utf8("Main")).1
}

/// Whether a start-up had room: the core types that others are made of were made, and
/// the types of the main module's table were listed under their names.
pub open spec fn had_room(s: State) -> bool {
    &&& furnished(cleared(s).core_types())
    &&& table_listed(main_named(s).push_roots(seq![main_name(s), NULL]))
}

/// A cleared heap can be used.
proof fn lemma_blank(s: State)
    requires
        s.roots.len() == 0,
        s.exc.len() == 0,
        s.main == NULL,
        8 * s.layouts.len() >= REGION_SIZE,
    ensures
        blank(State { syms: Seq::empty(), structs: Seq::empty(), builtins: None, ..cleared(s) }),
{
    let e = State { syms: Seq::empty(), structs: Seq::empty(), builtins: None, ..cleared(s) };
    assert(forall|v: u32| #[trigger] e.obj(v) is None);
    assert(forall|v: u32| !(#[trigger] e.is_marked(v)));
}

/// A runtime that was started has a heap in order: from a runtime that holds no values
/// a start-up that had room leaves a healthy heap whose core types describe their
/// instances.
pub proof fn law_init_is_healthy(s: State, bodies: Seq<Rc<Body>>)
    requires
        s.roots.len() == 0,
        s.exc.len() == 0,
        s.main == NULL,
        8 * s.layouts.len() >= REGION_SIZE,
        had_room(s),
    ensures
        s.init_runtime(bodies).0.healthy(),
        s.init_runtime(bodies).0.described(),
        s.init_runtime(bodies).0.roots.len() == 0,
{
    lemma_blank(s);
    let c = cleared(s);
    lemma_bootstrap(c);
    let a = c.bootstrap();
    let b = State { exc: Seq::empty(), ..a };
    assert(b =~= a);
    let text = utf8("Main");
    lemma_intern(b, text);
    lemma_intern_grows(b, text);
    let (m, sym) = b.intern(b.builtin(id::SYMBOL), text);
    crate::instances::lemma_grows(b, m);
    lemma_named_follows(b, m, b.tuple_name());
    lemma_named_follows(b, m, b.shared_name(3));
    lemma_named_follows(b, m, b.shared_name(4));
    crate::instances::lemma_first_module(m, sym);
    let (n, r) = m.new_module(sym, NULL);
    assert(m.kept(n, m.tuple_name()));
    lemma_same_roots(m, n);
    assert(n.fit_name(n.tuple_name()));
    let (s1, _r) = b.init_main();
    match r {
        Ok(v) => {
            assert(s1 == (State { main: v.0, ..n }));
            assert forall|x: u32| #[trigger] root(s1, x) implies root(n, x) || x == v.0 || x
                == NULL by {}
            lemma_register(n, s1, v.0);
            crate::definitions::lemma_root_follows(n, s1, n.tuple_name());
        },
        Err(_) => {},
    }
    assert(s1.in_order() && s1.fit_name(s1.tuple_name()));
    crate::instances::lemma_install(s1, bodies, 0);
    reveal(State::in_order);
}

/// A call that starts the runtime leaves the shadow stack as it was, as any other does.
pub proof fn law_first_call_balances(s: State, t: State, a: i64, b: i64)
    requires
        s.roots.len() == 0,
        s.exc.len() == 0,
        s.main == NULL,
        8 * s.layouts.len() >= REGION_SIZE,
        had_room(s),
        crate::abi::ready(s, t),
    ensures
        t.demo_add(a, b).0.roots.len() == s.roots.len(),
{
    crate::calls::law_demo_add_balances(t, a, b);
    if !s.region.initialized {
        let bodies = choose|bodies: Seq<Rc<Body>>|
            crate::abi::are_demo_bodies(bodies) && t == (#[trigger] s.init_runtime(bodies)).0;
        law_init_is_healthy(s, bodies);
    }
}

proof fn lemma_same_roots(s: State, e: State)
    requires
        tables_stay(s, e),
        e.syms == s.syms,
    ensures
        e.root_list() == s.root_list(),
{
    reveal(State::root_list);
}

proof fn lemma_named_follows(s: State, e: State, n: u32)
    requires
        s.in_order(),
        follows(s, e),
        s.fit_name(n),
        s.word(n, 4) == NULL,
    ensures
        e.fit_name(n),
        e.word(n, 4) == NULL,
{
    crate::definitions::lemma_root_follows(s, e, n);
    crate::instances::lemma_grows(s, e);
}

} // verus!
