//! What definitions register.
//!
//! Types and callable values are found through tables of the runtime: structs by the
//! symbol that names them, callable values by their types. Allocations and
//! collections leave the tables alone; a definition adds one entry.

use vstd::prelude::*;
use crate::bytes::utf8;
use crate::dispatch::callable_from;
use crate::id;
use crate::ir::FnKind;
use crate::object::lemma_alloc_object_keeps;
use crate::region::NULL;
use crate::state::State;
use crate::symbol::lemma_fill_keeps;
use crate::types::DT_SIZE;

verus! {

/// Whether `e` has the tables and the core types of `s`.
pub open spec fn tables_kept(s: State, e: State) -> bool {
    &&& e.functions == s.functions
    &&& e.structs == s.structs
    &&& e.methods == s.methods
    &&& e.builtins == s.builtins
}

proof fn lemma_words(s: State, v: u32, base: int, ws: Seq<u32>, k: int)
    ensures
        tables_kept(s, s.write_words(v, base, ws, k)),
    decreases ws.len() - k,
{
    if !(k < 0 || k >= ws.len()) {
        lemma_words(s.with_word(v, base + 4 * k, ws[k]), v, base, ws, k + 1);
    }
}

proof fn lemma_intern(s: State, t: u32, text: Seq<u8>)
    ensures
        tables_kept(s, s.intern(t, text).0),
{
    reveal(State::intern);
    lemma_alloc_object_keeps(s, t, 4 + text.len() as int);
    let (a, v) = s.alloc_object(t, 4 + text.len() as int);
    lemma_fill_keeps(a.with_word(v, 0, text.len() as u32), v, 4, text, 0);
}

proof fn lemma_svec(s: State, elems: Seq<u32>)
    ensures
        tables_kept(s, s.make_svec(elems).0),
{
    reveal(State::make_svec);
    let p = s.push_roots(elems);
    let t = s.builtin(id::SVEC);
    let size = 4 + 4 * elems.len() as int;
    lemma_alloc_object_keeps(p, t, size);
    let (a, v) = p.alloc_object(t, size);
    let b = a.pop_roots(elems.len() as int);
    lemma_words(b.with_word(v, 0, elems.len() as u32), v, 4, elems, 0);
}

proof fn lemma_names(s: State, fields: Seq<(Seq<u8>, u32)>, n: int)
    ensures
        tables_kept(s, s.intern_names(fields, n).0),
    decreases n,
{
    if !(n <= 0 || n > fields.len()) {
        lemma_names(s, fields, n - 1);
        let (a, rest) = s.intern_names(fields, n - 1);
        lemma_intern(a, a.builtin(id::SYMBOL), fields[n - 1].0);
    }
}

/// Making the type of a struct registers nothing by itself.
proof fn lemma_define_type(
    s: State,
    name: Seq<u8>,
    super_: u32,
    fields: Seq<(Seq<u8>, u32)>,
    mutabl: bool,
)
    ensures
        tables_kept(s, s.define_type(name, super_, fields, mutabl).0),
{
    reveal(State::make_typename);
    reveal(State::place_words);
    let fts = fields.map_values(|f: (Seq<u8>, u32)| f.1);
    let s0 = s.push_roots(fts.push(super_));
    lemma_intern(s0, s0.builtin(id::SYMBOL), name);
    let (s1, sym) = s0.intern(s0.builtin(id::SYMBOL), name);
    lemma_alloc_object_keeps(s1.push_root(sym), s1.builtin(id::TYPENAME), 16);
    let (s2, tn) = s1.make_typename(s1.builtin(id::TYPENAME), sym);
    let s3 = s2.push_root(tn).with_word(
        tn,
        12,
        if mutabl {
            1
        } else {
            0
        },
    );
    let l = s3.field_layout(fts);
    lemma_names(s3, fields, fields.len() as int);
    let (s4, syms) = s3.intern_names(fields, fields.len() as int);
    lemma_svec(s4, syms);
    let (s5, names) = s4.make_svec(syms);
    let a = s5.push_root(names).set_ref(tn, 8, names);
    lemma_svec(a, fts);
    let (s6, types) = a.make_svec(fts);
    assert(tables_kept(s, s3));
    assert(tables_kept(s, a));
    assert(tables_kept(s, s6));
    let (s7, layout) = s6.push_root(types).struct_layout(l);
    assert(tables_kept(s, s7));
    lemma_alloc_object_keeps(s7, s7.builtin(id::DATATYPE), DT_SIZE as int);
    let (s8, t) = s7.alloc_object(s7.builtin(id::DATATYPE), DT_SIZE as int);
    assert(tables_kept(s, s8));
    let d = crate::types::DataType {
        name: tn,
        super_,
        parameters: NULL,
        types,
        instance: NULL,
        layout,
        size: l.size,
        nfields: fields.len() as u32,
        flags: 0,
    };
    assert(tables_kept(s8, s8.write_dt(t, d)));
}

proof fn lemma_define_struct(
    s: State,
    name: Seq<u8>,
    super_: u32,
    fields: Seq<(Seq<u8>, u32)>,
    mutabl: bool,
)
    ensures
        tables_kept(s, s.define_struct(name, super_, fields, mutabl).0),
{
    reveal(State::define_struct);
    lemma_define_type(s, name, super_, fields, mutabl);
    let (a, t) = s.define_type(name, super_, fields, mutabl);
    lemma_alloc_object_keeps(a.push_root(t), t, 0);
}

/// A new callable value resolves to what it was made for. Its type has it as the one
/// instance and is below `Function`; and the heap stays in order. This holds in every
/// runtime whose heap is in order and has room for the type and the instance.
pub proof fn law_callable_resolves(s: State, name: Seq<u8>, kind: FnKind)
    requires
        s.healthy(),
        s.described(),
        s.make_callable(name, kind).1 != NULL,
    ensures
        ({
            let t = s.define_struct(name, s.builtin(id::FUNCTION), Seq::empty(), false).1;
            let (e, v) = s.make_callable(name, kind);
            &&& e.callable_of(v) == Some(kind)
            &&& kind is Generic ==> e.func_of(v) == Some(kind->Generic_0)
            &&& e.tag(v) == t
            &&& e.instance_of(t) == v
            &&& e.supertype(t) == s.builtin(id::FUNCTION)
            &&& e.healthy()
            &&& e.described()
        }),
{
    reveal(State::in_order);
    reveal(State::make_callable);
    let f = s.builtin(id::FUNCTION);
    let none = Seq::<(Seq<u8>, u32)>::empty();
    crate::health::lemma_builtin_is_root(s, id::FUNCTION);
    crate::definitions::lemma_define_struct(s, name, f, none, false);
    crate::definitions::lemma_make_callable(s, name, kind);
    let (a, t) = s.define_struct(name, f, none, false);
    let (e, v) = s.make_callable(name, kind);
    assert(forall|u: u32| #[trigger] e.obj(u) == a.obj(u));
    assert(t != NULL) by {
        if t == NULL {
            crate::definitions::lemma_top(a);
        }
    }
    assert(e.functions.last() == (t, kind));
}

proof fn lemma_callable_push(fs: Seq<(u32, FnKind)>, x: (u32, FnKind), t: u32, n: int)
    requires
        n <= fs.len(),
    ensures
        callable_from(fs.push(x), t, n) == callable_from(fs, t, n),
    decreases n,
{
    if n > 0 {
        lemma_callable_push(fs, x, t, n - 1);
    }
}

/// Making a callable value registers its type, and changes nothing about what a value
/// of another type resolves to.
pub proof fn law_callables_do_not_interfere(s: State, name: Seq<u8>, kind: FnKind, w: u32)
    requires
        ({
            let t = s.define_struct(name, s.builtin(id::FUNCTION), Seq::empty(), false).1;
            let e = s.make_callable(name, kind).0;
            s.tag(w) != t && e.tag(w) == s.tag(w)
        }),
    ensures
        ({
            let t = s.define_struct(name, s.builtin(id::FUNCTION), Seq::empty(), false).1;
            let e = s.make_callable(name, kind).0;
            &&& e.functions == s.functions.push((t, kind))
            &&& e.callable_of(w) == s.callable_of(w)
            &&& e.func_of(w) == s.func_of(w)
        }),
{
    reveal(State::make_callable);
    let f = s.builtin(id::FUNCTION);
    let none = Seq::<(Seq<u8>, u32)>::empty();
    lemma_define_struct(s, name, f, none, false);
    let t = s.define_struct(name, f, none, false).1;
    let n = s.functions.len() as int;
    lemma_callable_push(s.functions, (t, kind), s.tag(w), n);
}

proof fn lemma_same_fields(s: State, t: u32, fields: Seq<(Seq<u8>, u32)>, i: int)
    ensures
        tables_kept(s, s.same_fields(t, fields, i).0),
    decreases fields.len() - i,
{
    if !(i < 0 || i >= fields.len()) {
        lemma_intern(s, s.builtin(id::SYMBOL), fields[i].0);
        let (a, sym) = s.intern(s.builtin(id::SYMBOL), fields[i].0);
        lemma_same_fields(a, t, fields, i + 1);
    }
}

/// A first definition of a struct is registered under its name; and whatever is
/// defined, what was registered under the name stays registered.
pub proof fn law_definition_is_registered(
    s: State,
    name: Seq<u8>,
    fields: Seq<(Seq<u8>, u32)>,
    mutabl: bool,
)
    ensures
        ({
            let (a, sym) = s.intern(s.builtin(id::SYMBOL), name);
            let (e, r) = s.define_struct_from_source(name, fields, mutabl);
            match a.lookup_struct(sym) {
                None => r is Ok && e.lookup_struct(sym) == Some(r->Ok_0),
                Some(t) => e.lookup_struct(sym) == Some(t) && e.structs == s.structs,
            }
        }),
{
    reveal(State::define_struct_from_source);
    lemma_intern(s, s.builtin(id::SYMBOL), name);
    let (a, sym) = s.intern(s.builtin(id::SYMBOL), name);
    match a.lookup_struct(sym) {
        Some(t) => {
            lemma_same_fields(a, t, fields, 0);
            let e = s.define_struct_from_source(name, fields, mutabl).0;
            lemma_named(a, e, sym, a.structs.len() as int);
        },
        None => {
            lemma_define_struct(a, name, a.builtin(id::ANY), fields, mutabl);
        },
    }
}

proof fn lemma_named(s: State, e: State, sym: u32, n: int)
    requires
        s.structs == e.structs,
    ensures
        s.struct_named(sym, n) == e.struct_named(sym, n),
    decreases n,
{
    if !(n <= 0 || n > s.structs.len()) {
        lemma_named(s, e, sym, n - 1);
    }
}

/// A definition under a name that is registered gives the registered type if it has
/// the same mutability and the same fields, by name and type in order; another one is
/// refused, and the registered type stays.
pub proof fn law_redefinition(
    s: State,
    name: Seq<u8>,
    fields: Seq<(Seq<u8>, u32)>,
    mutabl: bool,
    t: u32,
)
    requires
        s.intern(s.builtin(id::SYMBOL), name).0 == s,
        s.lookup_struct(s.intern(s.builtin(id::SYMBOL), name).1) == Some(t),
        forall|i: int|
            0 <= i < fields.len() ==> (#[trigger] s.intern(
                s.builtin(id::SYMBOL),
                fields[i].0,
            )).0 == s,
    ensures
        ({
            let same = {
                &&& s.is_mutable(t) == mutabl
                &&& s.nfields_of(t) == fields.len()
                &&& forall|i: int|
                    #![trigger fields[i]]
                    0 <= i < fields.len() ==> s.svec_ref(s.field_names(t), i) == s.intern(
                        s.builtin(id::SYMBOL),
                        fields[i].0,
                    ).1 && s.field_type(t, i) == fields[i].1
            };
            s.define_struct_from_source(name, fields, mutabl) == (
                s,
                if same {
                    Ok::<u32, Seq<u8>>(t)
                } else {
                    Err(utf8("invalid redefinition of constant ") + name)
                },
            )
        }),
{
    reveal(State::define_struct_from_source);
    lemma_fields_compared(s, t, fields, 0);
}

proof fn lemma_fields_compared(s: State, t: u32, fields: Seq<(Seq<u8>, u32)>, i: int)
    requires
        0 <= i <= fields.len(),
        forall|k: int|
            0 <= k < fields.len() ==> (#[trigger] s.intern(
                s.builtin(id::SYMBOL),
                fields[k].0,
            )).0 == s,
    ensures
        s.same_fields(t, fields, i) == (s, forall|k: int|
            #![trigger fields[k]]
            i <= k < fields.len() ==> s.svec_ref(s.field_names(t), k) == s.intern(
                s.builtin(id::SYMBOL),
                fields[k].0,
            ).1 && s.field_type(t, k) == fields[k].1),
    decreases fields.len() - i,
{
    if i < fields.len() {
        let x = s.intern(s.builtin(id::SYMBOL), fields[i].0);
        assert(x.0 == s);
        lemma_fields_compared(s, t, fields, i + 1);
    }
}

} // verus!
