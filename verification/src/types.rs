//! Construction of type objects.
//!
//! Instantiated parametric types are kept in a cache on their name object, so
//! that equal instantiations are one object.

use vstd::prelude::*;
use crate::access;
use crate::bytes::utf8;
use crate::gc::PAGE_SIZE;
use crate::id;
use crate::object::{alloc_object, set_ref};
use crate::region::{alloc_bytes, NULL};
use crate::state::{Runtime, State, Value};
use crate::symbol::intern;

verus! {

/// The payload size of a data type object.
pub const DT_SIZE: u32 = 36;

/// The fields of a data type, in the order of its payload words.
pub struct DataType {
    pub name: u32,
    pub super_: u32,
    pub parameters: u32,
    pub types: u32,
    pub instance: u32,
    pub layout: u32,
    pub size: u32,
    pub nfields: u32,
    pub flags: u32,
}

impl State {
    /// The state with the payload of the data type at `t` written.
    pub open spec fn write_dt(self, t: u32, d: DataType) -> State {
        self.with_word(t, 0, d.name).with_word(t, 4, d.super_).with_word(
            t,
            8,
            d.parameters,
        ).with_word(t, 12, d.types).with_word(t, 16, d.instance).with_word(
            t,
            20,
            d.layout,
        ).with_word(t, 24, d.size).with_word(t, 28, d.nfields).with_word(t, 32, d.flags)
    }

    /// The state with the words `ws` from position `k` on written to the block `v`,
    /// word `k` at byte offset `base + 4 * k`.
    pub open spec fn write_words(self, v: u32, base: int, ws: Seq<u32>, k: int) -> State
        decreases ws.len() - k,
    {
        if k < 0 || k >= ws.len() {
            self
        } else {
            self.with_word(v, base + 4 * k, ws[k]).write_words(v, base, ws, k + 1)
        }
    }

    /// A run of words outside the collected pages, or null when the region cannot
    /// hold it.
    #[verifier::opaque]
    pub open spec fn place_words(self, ws: Seq<u32>) -> (State, u32) {
        let (s, off) = self.region_alloc(4 * ws.len() as int);
        if off == NULL || ws.len() > PAGE_SIZE {
            (s, NULL)
        } else {
            (s.put_layout(off, ws), off)
        }
    }

    /// A layout that lists embedded references only; null when there are none.
    pub open spec fn make_layout(self, ptrs: Seq<u32>) -> (State, u32) {
        if ptrs.len() == 0 {
            (self, NULL)
        } else {
            self.place_words(seq![ptrs.len() as u32] + ptrs)
        }
    }

    /// A simple vector of the given elements, or null when the heap is exhausted.
    #[verifier::opaque]
    pub open spec fn make_svec(self, elems: Seq<u32>) -> (State, u32) {
        if elems.len() > PAGE_SIZE {
            (self, NULL)
        } else {
            let (s, v) = self.push_roots(elems).alloc_object(
                self.builtin(id::SVEC),
                4 + 4 * elems.len() as int,
            );
            (
                s.pop_roots(elems.len() as int).with_word(v, 0, elems.len() as u32).write_words(
                    v,
                    4,
                    elems,
                    0,
                ),
                v,
            )
        }
    }

    /// A name object over the symbol `sym`.
    #[verifier::opaque]
    pub open spec fn make_typename(self, t: u32, sym: u32) -> (State, u32) {
        let (s, v) = self.push_root(sym).alloc_object(t, 16);
        (s.pop_roots(1).with_word(v, 0, sym), v)
    }
}

/// Writes the payload of the data type at `t`.
pub(crate) fn write_dt(rt: &mut Runtime, t: u32, d: DataType)
    ensures
        final(rt)@ == old(rt)@.write_dt(t, d),
{
    rt.set_word(t, 0, d.name);
    rt.set_word(t, 4, d.super_);
    rt.set_word(t, 8, d.parameters);
    rt.set_word(t, 12, d.types);
    rt.set_word(t, 16, d.instance);
    rt.set_word(t, 20, d.layout);
    rt.set_word(t, 24, d.size);
    rt.set_word(t, 28, d.nfields);
    rt.set_word(t, 32, d.flags);
}

/// Writes words to the block `v`.
fn write_words(rt: &mut Runtime, v: u32, base: u32, ws: &Vec<u32>)
    requires
        ws.len() <= 0xffff_ffff,
    ensures
        final(rt)@ == old(rt)@.write_words(v, base as int, ws@, 0),
{
    let mut k: usize = 0;
    while k < ws.len()
        invariant
            k <= ws.len() <= 0xffff_ffff,
            old(rt)@.write_words(v, base as int, ws@, 0) == rt@.write_words(
                v,
                base as int,
                ws@,
                k as int,
            ),
        decreases ws.len() - k,
    {
        rt.set_word(v, base as u64 + 4 * (k as u64), ws[k]);
        k = k + 1;
    }
}

/// Places a run of words in the region, outside the collected pages.
pub fn place_words(rt: &mut Runtime, ws: Vec<u32>) -> (r: u32)
    ensures
        (final(rt)@, r) == old(rt)@.place_words(ws@),
{
    proof {
        reveal(State::place_words);
    }
    if ws.len() > 0x10_0000 {
        return NULL;
    }
    let off: u32 = alloc_bytes(rt, 4 * ws.len());
    if off == NULL || ws.len() > PAGE_SIZE as usize {
        return NULL;
    }
    rt.put_layout(off, ws);
    off
}

/// A layout that lists embedded references only.
pub(crate) fn make_layout(rt: &mut Runtime, ptrs: &Vec<u32>) -> (r: u32)
    ensures
        (final(rt)@, r) == old(rt)@.make_layout(ptrs@),
{
    if ptrs.len() == 0 {
        return NULL;
    }
    let mut ws: Vec<u32> = Vec::new();
    ws.push(ptrs.len() as u32);
    let mut rest: Vec<u32> = crate::gc::copy_words(ptrs);
    ws.append(&mut rest);
    assert(ws@ =~= seq![ptrs.len() as u32] + ptrs@);
    place_words(rt, ws)
}

/// A simple vector of the given elements.
pub fn svec_of(rt: &mut Runtime, elems: &Vec<u32>) -> (r: u32)
    ensures
        (final(rt)@, r) == old(rt)@.make_svec(elems@),
{
    proof {
        reveal(State::make_svec);
    }
    if elems.len() > PAGE_SIZE as usize {
        return NULL;
    }
    let t: u32 = access::builtin(rt, id::SVEC);
    let n: u32 = elems.len() as u32;
    rt.push_roots(elems);
    let v: u32 = alloc_object(rt, t, 4 + 4 * n).0;
    rt.pop_roots(elems.len());
    rt.set_word(v, 0, n);
    write_words(rt, v, 4, elems);
    v
}

/// A name object over the symbol `sym`.
pub fn make_typename(rt: &mut Runtime, typename_type: u32, sym: u32) -> (r: u32)
    ensures
        (final(rt)@, r) == old(rt)@.make_typename(typename_type, sym),
{
    proof {
        reveal(State::make_typename);
    }
    rt.push_root(sym);
    let v: u32 = alloc_object(rt, typename_type, 16).0;
    rt.pop_roots(1);
    rt.set_word(v, 0, sym);
    v
}

// --- instantiation and its cache --------------------------------------------

impl State {
    /// The first type from position `i` on of the vector `cache` with the given
    /// parameters, or null.
    pub open spec fn cached_from(self, cache: u32, params: Seq<u32>, i: int) -> u32
        decreases self.svec_len(cache) - i,
    {
        if i < 0 || i >= self.svec_len(cache) {
            NULL
        } else {
            let p = self.parameters(self.svec_ref(cache, i));
            if p != NULL && self.svec_seq(p) == params {
                self.svec_ref(cache, i)
            } else {
                self.cached_from(cache, params, i + 1)
            }
        }
    }

    /// The instantiation of the name `tn` with the given parameters, if it was made.
    pub open spec fn cache_lookup(self, tn: u32, params: Seq<u32>) -> u32 {
        if self.word(tn, 4) == NULL {
            NULL
        } else {
            self.cached_from(self.word(tn, 4), params, 0)
        }
    }

    /// The state with the type `t` appended to the cache of the name `tn`.
    #[verifier::opaque]
    pub open spec fn cache_insert(self, tn: u32, t: u32) -> State {
        let (s, v) = self.push_root(t).make_svec(self.svec_seq(self.word(tn, 4)).push(t));
        s.pop_roots(1).set_ref(tn, 4, v)
    }

    /// The instantiation of the name `tn` with the given parameters.
    #[verifier::opaque]
    pub open spec fn apply(
        self,
        tn: u32,
        super_: u32,
        params: Seq<u32>,
        layout: u32,
        size: u32,
    ) -> (State, u32) {
        let cached = self.cache_lookup(tn, params);
        if cached != NULL {
            (self, cached)
        } else {
            let (s1, p) = self.make_svec(params);
            let (s2, t) = s1.push_root(p).alloc_object(s1.builtin(id::DATATYPE), DT_SIZE as int);
            let s3 = s2.pop_roots(1).write_dt(
                t,
                DataType {
                    name: tn,
                    super_,
                    parameters: p,
                    types: NULL,
                    instance: NULL,
                    layout,
                    size,
                    nfields: 0,
                    flags: 0,
                },
            );
            (s3.cache_insert(tn, t), t)
        }
    }

    /// The tuple type of the given element types.
    pub open spec fn tuple_type(self, elems: Seq<u32>) -> (State, u32) {
        self.apply(self.tuple_name(), self.builtin(id::ANY), elems, NULL, 0)
    }

    /// The name object of `Box{T}` and its likes, chosen by `k`.
    pub open spec fn shared_name(self, k: int) -> u32 {
        match self.builtins {
            Some(b) => if k == 0 {
                b.box_typename
            } else if k == 1 {
                b.pair_typename
            } else if k == 2 {
                b.type_typename
            } else if k == 3 {
                b.memory_typename
            } else {
                b.array_typename
            },
            None => NULL,
        }
    }

    /// The layout shared by all array types.
    pub open spec fn array_layout(self) -> u32 {
        match self.builtins {
            Some(b) => b.array_layout,
            None => NULL,
        }
    }

    pub open spec fn box_type(self, elem: u32) -> (State, u32) {
        self.apply(self.shared_name(0), self.builtin(id::ANY), seq![elem], NULL, 0)
    }

    pub open spec fn pair_type(self, a: u32, b: u32) -> (State, u32) {
        self.apply(self.shared_name(1), self.builtin(id::ANY), seq![a, b], NULL, 0)
    }

    pub open spec fn type_type(self, t: u32) -> (State, u32) {
        self.apply(self.shared_name(2), self.builtin(id::TYPE), seq![t], NULL, 0)
    }

    pub open spec fn memory_type(self, elem: u32) -> (State, u32) {
        self.apply(self.shared_name(3), self.builtin(id::ANY), seq![elem], NULL, 0)
    }

    pub open spec fn array_type(self, elem: u32) -> (State, u32) {
        self.apply(self.shared_name(4), self.builtin(id::ANY), seq![elem], self.array_layout(), 12)
    }

    /// Whether `t` is a `Type{T}` type.
    pub open spec fn is_type_type(self, t: u32) -> bool {
        self.is_datatype(t) && self.builtins is Some && self.name_of(t) == self.shared_name(2)
    }

    /// Whether `t` is an `Array{T}` type.
    pub open spec fn is_array(self, t: u32) -> bool {
        self.is_datatype(t) && self.builtins is Some && self.name_of(t) == self.shared_name(4)
    }

    /// Whether `t` is the type of some types.
    pub open spec fn is_kind(self, t: u32) -> bool {
        t == self.builtin(id::DATATYPE) || t == self.builtin(id::UNION) || t == self.builtin(
            id::UNIONALL,
        )
    }

    /// A block of references, all rooted during its allocation.
    #[verifier::opaque]
    pub open spec fn make_refs(self, t: u32, refs: Seq<u32>) -> (State, u32) {
        let (s, v) = self.push_roots(refs).alloc_object(t, 4 * refs.len() as int);
        (s.pop_roots(refs.len() as int).write_words(v, 0, refs, 0), v)
    }

    pub open spec fn typevar(self, name: u32, lb: u32, ub: u32) -> (State, u32) {
        self.make_refs(self.builtin(id::TVAR), seq![name, lb, ub])
    }

    pub open spec fn make_typevar(self, name: Seq<u8>, lb: u32, ub: u32) -> (State, u32) {
        let (s, sym) = self.push_roots(seq![lb, ub]).intern(self.builtin(id::SYMBOL), name);
        s.pop_roots(2).typevar(sym, lb, ub)
    }

    pub open spec fn unionall_type(self, var: u32, body: u32) -> (State, u32) {
        self.make_refs(self.builtin(id::UNIONALL), seq![var, body])
    }

    pub open spec fn vararg(self, elem: u32, num: u32) -> (State, u32) {
        self.make_refs(self.builtin(id::VARARG), seq![elem, num])
    }

    pub open spec fn intersect_type(self, a: u32, b: u32) -> (State, u32) {
        self.make_refs(self.builtin(id::INTERSECT), seq![a, b])
    }

    pub open spec fn union_node(self, a: u32, b: u32) -> (State, u32) {
        self.make_refs(self.builtin(id::UNION), seq![a, b])
    }
}

/// Whether the simple vector `p` holds exactly `params`.
fn svec_matches(rt: &Runtime, p: u32, params: &Vec<u32>) -> (r: bool)
    requires
        p != NULL,
    ensures
        r == (rt@.svec_seq(p) == params@),
{
    let n: u32 = access::svec_len(rt, p);
    if n as usize != params.len() {
        assert(rt@.svec_seq(p).len() != params@.len());
        return false;
    }
    let mut i: u32 = 0;
    while i < n
        invariant
            i <= n,
            n == params.len(),
            n == rt@.svec_len(p),
            p != NULL,
            forall|k: int| 0 <= k < i ==> rt@.svec_seq(p)[k] == params@[k],
        decreases n - i,
    {
        if access::svec_ref(rt, p, i) != params[i as usize] {
            assert(rt@.svec_seq(p)[i as int] != params@[i as int]);
            return false;
        }
        i = i + 1;
    }
    assert(rt@.svec_seq(p) =~= params@);
    true
}

/// The cached instantiation of `tn` with the given parameters, or null.
fn cache_lookup(rt: &Runtime, tn: u32, params: &Vec<u32>) -> (r: u32)
    ensures
        r == rt@.cache_lookup(tn, params@),
{
    let cache: u32 = rt.word(tn, 4);
    if cache == NULL {
        return NULL;
    }
    let n: u32 = access::svec_len(rt, cache);
    let mut i: u32 = 0;
    while i < n
        invariant
            i <= n,
            n == rt@.svec_len(cache),
            rt@.cached_from(cache, params@, 0) == rt@.cached_from(cache, params@, i as int),
            cache == rt@.word(tn, 4),
            cache != NULL,
        decreases n - i,
    {
        let ty: u32 = access::svec_ref(rt, cache, i);
        let p: u32 = access::parameters_of(rt, ty);
        if p != NULL && svec_matches(rt, p, params) {
            return ty;
        }
        i = i + 1;
    }
    NULL
}

/// Appends `t` to the cache of `tn`.
fn cache_insert(rt: &mut Runtime, tn: u32, t: u32)
    ensures
        final(rt)@ == old(rt)@.cache_insert(tn, t),
{
    proof {
        reveal(State::cache_insert);
    }
    let mut entries: Vec<u32> = access::svec_vec(rt, rt.word(tn, 4));
    entries.push(t);
    rt.push_root(t);
    let v: u32 = svec_of(rt, &entries);
    rt.pop_roots(1);
    set_ref(rt, Value(tn), 4, Value(v));
}

/// Instantiates `tn` with the given parameters, layout and size.
pub(crate) fn apply_inst(
    rt: &mut Runtime,
    tn: u32,
    super_: u32,
    params: &Vec<u32>,
    layout: u32,
    size: u32,
) -> (r: u32)
    ensures
        (final(rt)@, r) == old(rt)@.apply(tn, super_, params@, layout, size),
{
    proof {
        reveal(State::apply);
    }
    let cached: u32 = cache_lookup(rt, tn, params);
    if cached != NULL {
        return cached;
    }
    let p: u32 = svec_of(rt, params);
    let dt: u32 = access::builtin(rt, id::DATATYPE);
    rt.push_root(p);
    let t: u32 = alloc_object(rt, dt, DT_SIZE).0;
    rt.pop_roots(1);
    write_dt(
        rt,
        t,
        DataType {
            name: tn,
            super_,
            parameters: p,
            types: NULL,
            instance: NULL,
            layout,
            size,
            nfields: 0,
            flags: 0,
        },
    );
    cache_insert(rt, tn, t);
    t
}

/// Instantiates the parametric type named by `typename`; equal instantiations are
/// one object.
pub fn apply_type(rt: &mut Runtime, typename: u32, super_: u32, params: &Vec<u32>) -> (r: u32)
    ensures
        (final(rt)@, r) == old(rt)@.apply(typename, super_, params@, NULL, 0),
{
    apply_inst(rt, typename, super_, params, NULL, 0)
}

/// The name object shared by tuple types.
fn tuple_name(rt: &Runtime) -> (r: u32)
    ensures
        r == rt@.tuple_name(),
{
    match &rt.builtins {
        Some(b) => b.tuple_typename,
        None => NULL,
    }
}

/// The shared name object number `k`.
fn shared_name(rt: &Runtime, k: u32) -> (r: u32)
    ensures
        r == rt@.shared_name(k as int),
{
    match &rt.builtins {
        Some(b) => {
            if k == 0 {
                b.box_typename
            } else if k == 1 {
                b.pair_typename
            } else if k == 2 {
                b.type_typename
            } else if k == 3 {
                b.memory_typename
            } else {
                b.array_typename
            }
        },
        None => NULL,
    }
}

/// The tuple type of the given element types.
pub fn tuple_type(rt: &mut Runtime, elems: &Vec<u32>) -> (r: u32)
    ensures
        (final(rt)@, r) == old(rt)@.tuple_type(elems@),
{
    let tn: u32 = tuple_name(rt);
    let any: u32 = access::builtin(rt, id::ANY);
    apply_inst(rt, tn, any, elems, NULL, 0)
}

/// A vector of one offset.
fn one(a: u32) -> (r: Vec<u32>)
    ensures
        r@ == seq![a],
{
    let mut r: Vec<u32> = Vec::new();
    r.push(a);
    assert(r@ =~= seq![a]);
    r
}

/// A vector of two offsets.
fn two(a: u32, b: u32) -> (r: Vec<u32>)
    ensures
        r@ == seq![a, b],
{
    let mut r: Vec<u32> = Vec::new();
    r.push(a);
    r.push(b);
    assert(r@ =~= seq![a, b]);
    r
}

/// The invariant type `Box{elem}`.
pub fn box_type(rt: &mut Runtime, elem: u32) -> (r: u32)
    ensures
        (final(rt)@, r) == old(rt)@.box_type(elem),
{
    let tn: u32 = shared_name(rt, 0);
    let any: u32 = access::builtin(rt, id::ANY);
    apply_inst(rt, tn, any, &one(elem), NULL, 0)
}

/// The invariant type `Pair{a, b}`.
pub fn pair_type(rt: &mut Runtime, a: u32, b: u32) -> (r: u32)
    ensures
        (final(rt)@, r) == old(rt)@.pair_type(a, b),
{
    let tn: u32 = shared_name(rt, 1);
    let any: u32 = access::builtin(rt, id::ANY);
    apply_inst(rt, tn, any, &two(a, b), NULL, 0)
}

/// The type `Type{t}`, whose sole instance is `t`.
pub fn type_type(rt: &mut Runtime, t: u32) -> (r: u32)
    ensures
        (final(rt)@, r) == old(rt)@.type_type(t),
{
    let tn: u32 = shared_name(rt, 2);
    let kind: u32 = access::builtin(rt, id::TYPE);
    apply_inst(rt, tn, kind, &one(t), NULL, 0)
}

/// The type `GenericMemory{elem}`.
pub fn memory_type(rt: &mut Runtime, elem: u32) -> (r: u32)
    ensures
        (final(rt)@, r) == old(rt)@.memory_type(elem),
{
    let tn: u32 = shared_name(rt, 3);
    let any: u32 = access::builtin(rt, id::ANY);
    apply_inst(rt, tn, any, &one(elem), NULL, 0)
}

/// The type `Array{elem}`.
pub fn array_type(rt: &mut Runtime, elem: u32) -> (r: u32)
    ensures
        (final(rt)@, r) == old(rt)@.array_type(elem),
{
    let tn: u32 = shared_name(rt, 4);
    let any: u32 = access::builtin(rt, id::ANY);
    let layout: u32 = match &rt.builtins {
        Some(b) => b.array_layout,
        None => NULL,
    };
    apply_inst(rt, tn, any, &one(elem), layout, 12)
}

/// Whether `t` is a `Type{T}` type.
pub fn is_type_type(rt: &Runtime, t: u32) -> (r: bool)
    ensures
        r == rt@.is_type_type(t),
{
    access::is_datatype(rt, t) && rt.builtins.is_some() && access::name_of(rt, t) == shared_name(
        rt,
        2,
    )
}

/// Whether `t` is an `Array{T}` type.
pub fn is_array(rt: &Runtime, t: u32) -> (r: bool)
    ensures
        r == rt@.is_array(t),
{
    access::is_datatype(rt, t) && rt.builtins.is_some() && access::name_of(rt, t) == shared_name(
        rt,
        4,
    )
}

/// Whether `t` is the type of some types.
pub fn is_kind(rt: &Runtime, t: u32) -> (r: bool)
    ensures
        r == rt@.is_kind(t),
{
    t == access::builtin(rt, id::DATATYPE) || t == access::builtin(rt, id::UNION) || t
        == access::builtin(rt, id::UNIONALL)
}

/// A block of references, all rooted during its allocation.
fn make_refs(rt: &mut Runtime, t: u32, refs: &Vec<u32>) -> (r: u32)
    requires
        refs.len() <= 3,
    ensures
        (final(rt)@, r) == old(rt)@.make_refs(t, refs@),
{
    proof {
        reveal(State::make_refs);
    }
    rt.push_roots(refs);
    let v: u32 = alloc_object(rt, t, 4 * (refs.len() as u32)).0;
    rt.pop_roots(refs.len());
    write_words(rt, v, 0, refs);
    v
}

/// A type variable with the given name symbol and bounds.
pub fn typevar(rt: &mut Runtime, name_sym: u32, lb: u32, ub: u32) -> (r: u32)
    ensures
        (final(rt)@, r) == old(rt)@.typevar(name_sym, lb, ub),
{
    let t: u32 = access::builtin(rt, id::TVAR);
    let mut refs: Vec<u32> = two(name_sym, lb);
    refs.push(ub);
    assert(refs@ =~= seq![name_sym, lb, ub]);
    make_refs(rt, t, &refs)
}

/// A type variable with the given name and bounds.
pub fn make_typevar(rt: &mut Runtime, name: &str, lb: u32, ub: u32) -> (r: u32)
    ensures
        (final(rt)@, r) == old(rt)@.make_typevar(utf8(name), lb, ub),
{
    let t: u32 = access::builtin(rt, id::SYMBOL);
    rt.push_roots(&two(lb, ub));
    let sym: u32 = intern(rt, t, name);
    rt.pop_roots(2);
    typevar(rt, sym, lb, ub)
}

/// The type `body where var`.
pub fn unionall_type(rt: &mut Runtime, var: u32, body: u32) -> (r: u32)
    ensures
        (final(rt)@, r) == old(rt)@.unionall_type(var, body),
{
    let t: u32 = access::builtin(rt, id::UNIONALL);
    make_refs(rt, t, &two(var, body))
}

/// The unbounded tuple tail of the given element type.
pub fn vararg_type(rt: &mut Runtime, elem: u32) -> (r: u32)
    ensures
        (final(rt)@, r) == old(rt)@.vararg(elem, NULL),
{
    vararg_of(rt, elem, NULL)
}

/// The tuple tail of `num` elements; `num` is a boxed integer, a variable, or null
/// for an unbounded tail.
pub fn vararg_of(rt: &mut Runtime, elem: u32, num: u32) -> (r: u32)
    ensures
        (final(rt)@, r) == old(rt)@.vararg(elem, num),
{
    let t: u32 = access::builtin(rt, id::VARARG);
    make_refs(rt, t, &two(elem, num))
}

/// An internal meet node of two types.
pub fn intersect_type(rt: &mut Runtime, a: u32, b: u32) -> (r: u32)
    ensures
        (final(rt)@, r) == old(rt)@.intersect_type(a, b),
{
    let t: u32 = access::builtin(rt, id::INTERSECT);
    make_refs(rt, t, &two(a, b))
}

/// A union object of two types, as they stand.
pub fn union_node(rt: &mut Runtime, a: u32, b: u32) -> (r: u32)
    ensures
        (final(rt)@, r) == old(rt)@.union_node(a, b),
{
    let t: u32 = access::builtin(rt, id::UNION);
    make_refs(rt, t, &two(a, b))
}

/// The normalised union of `parts`: flattened, without members below another, in
/// canonical order.
pub fn union_of(rt: &mut Runtime, parts: &Vec<u32>) -> (r: u32)
    ensures
        (final(rt)@, r) == old(rt)@.union_all(parts@, access::MAX_NESTING as nat),
{
    crate::subtype::union_at(rt, parts, access::MAX_NESTING)
}

/// The normalised union of `a` and `b`.
pub fn union_type(rt: &mut Runtime, a: u32, b: u32) -> (r: u32)
    ensures
        (final(rt)@, r) == old(rt)@.union_all(seq![a, b], access::MAX_NESTING as nat),
{
    let parts: Vec<u32> = two(a, b);
    crate::subtype::union_at(rt, &parts, access::MAX_NESTING)
}

/// Decides whether `a <: b`.
pub fn issubtype(rt: &mut Runtime, a: u32, b: u32) -> (r: bool)
    ensures
        (final(rt)@, r) == old(rt)@.subtype(a, b, access::MAX_NESTING as nat),
{
    crate::subtype::subtype(rt, a, b)
}

} // verus!
