//! The shadow stack: what an operation pushes onto it, it releases.

use vstd::prelude::*;
use crate::object::lemma_alloc_object_keeps;
use crate::state::State;

verus! {

proof fn lemma_words(s: State, v: u32, base: int, ws: Seq<u32>, k: int)
    ensures
        s.write_words(v, base, ws, k).roots == s.roots,
    decreases ws.len() - k,
{
    if !(k < 0 || k >= ws.len()) {
        lemma_words(s.with_word(v, base + 4 * k, ws[k]), v, base, ws, k + 1);
    }
}

proof fn lemma_fill(s: State, v: u32, base: int, text: Seq<u8>, k: int)
    ensures
        s.fill(v, base, text, k).roots == s.roots,
    decreases text.len() - k,
{
    if !(k < 0 || k >= text.len()) {
        lemma_fill(s.with_byte(v, base + k, text[k]), v, base, text, k + 1);
    }
}

pub proof fn lemma_payload(s: State, dst: u32, at: int, src: u32, from: int, n: int, k: int)
    ensures
        s.copy_payload(dst, at, src, from, n, k).roots == s.roots,
    decreases n - k,
{
    if !(k < 0 || k >= n) {
        lemma_payload(
            s.with_byte(dst, at + k, s.byte(src, from + k)),
            dst,
            at,
            src,
            from,
            n,
            k + 1,
        );
    }
}

/// Values are boxed, interned and put into vectors with the shadow stack left as it was.
pub proof fn law_values_balance(s: State, i: u32, bits: u64, t: u32, text: Seq<u8>, elems: Seq<u32>)
    ensures
        s.alloc_object(t, bits as int).0.roots == s.roots,
        s.box64(i, bits).0.roots == s.roots,
        s.intern(t, text).0.roots == s.roots,
        s.make_svec(elems).0.roots == s.roots,
        s.make_refs(t, elems).0.roots == s.roots,
{
    reveal(State::box64);
    reveal(State::make_svec);
    reveal(State::make_refs);
    lemma_alloc_object_keeps(s, t, bits as int);
    lemma_box(s, i, bits);
    lemma_intern(s, t, text);
    lemma_svec(s, elems);
    let p = s.push_roots(elems);
    let size = 4 * elems.len() as int;
    lemma_alloc_object_keeps(p, t, size);
    let (a, v) = p.alloc_object(t, size);
    assert(a.pop_roots(elems.len() as int).roots =~= s.roots);
    lemma_words(a.pop_roots(elems.len() as int), v, 0, elems, 0);
}

proof fn lemma_box(s: State, i: u32, bits: u64)
    ensures
        s.box64(i, bits).0.roots == s.roots,
{
    reveal(State::box64);
    let t = s.builtin(i);
    lemma_alloc_object_keeps(s, t, s.size_of(t) as int);
    lemma_alloc_object_keeps(s, t, 8);
}

proof fn lemma_intern(s: State, t: u32, text: Seq<u8>)
    ensures
        s.intern(t, text).0.roots == s.roots,
{
    reveal(State::intern);
    lemma_alloc_object_keeps(s, t, 4 + text.len() as int);
    let (a, v) = s.alloc_object(t, 4 + text.len() as int);
    lemma_fill(a.with_word(v, 0, text.len() as u32), v, 4, text, 0);
}

proof fn lemma_svec(s: State, elems: Seq<u32>)
    ensures
        s.make_svec(elems).0.roots == s.roots,
{
    reveal(State::make_svec);
    let p = s.push_roots(elems);
    let size = 4 + 4 * elems.len() as int;
    lemma_alloc_object_keeps(p, s.builtin(crate::id::SVEC), size);
    let (a, v) = p.alloc_object(s.builtin(crate::id::SVEC), size);
    let b = a.pop_roots(elems.len() as int);
    assert(b.roots =~= s.roots);
    lemma_words(b.with_word(v, 0, elems.len() as u32), v, 4, elems, 0);
}

/// Instantiating a name leaves the shadow stack as it was.
pub proof fn law_instantiation_balances(
    s: State,
    tn: u32,
    super_: u32,
    params: Seq<u32>,
    layout: u32,
    size: u32,
)
    ensures
        s.apply(tn, super_, params, layout, size).0.roots == s.roots,
{
    reveal(State::apply);
    reveal(State::cache_insert);
    lemma_svec(s, params);
    let (s1, p) = s.make_svec(params);
    let a = s1.push_root(p);
    lemma_alloc_object_keeps(a, s1.builtin(crate::id::DATATYPE), crate::types::DT_SIZE as int);
    let (s2, t) = a.alloc_object(s1.builtin(crate::id::DATATYPE), crate::types::DT_SIZE as int);
    assert(s2.pop_roots(1).roots =~= s.roots);
    let s3 = s2.pop_roots(1).write_dt(
        t,
        crate::types::DataType {
            name: tn,
            super_,
            parameters: p,
            types: crate::region::NULL,
            instance: crate::region::NULL,
            layout,
            size,
            nfields: 0,
            flags: 0,
        },
    );
    assert(s3.roots == s.roots);
    let elems = s3.svec_seq(s3.word(tn, 4)).push(t);
    lemma_svec(s3.push_root(t), elems);
    assert(s3.push_root(t).make_svec(elems).0.pop_roots(1).roots =~= s.roots);
}

/// Raising an error leaves the shadow stack as it was.
pub proof fn law_errors_balance(s: State, a: u32, i: i64, msg: Seq<u8>)
    ensures
        s.bounds_error(a, i).0.roots == s.roots,
        s.error_exception(msg).0.roots == s.roots,
{
    reveal(State::bounds_error);
    reveal(State::error_exception);
    let p = s.push_root(a);
    lemma_box(p, crate::id::INT64, crate::value::bits_of(i));
    let (s1, boxed) = p.box_int(i);
    let q = s1.push_root(boxed);
    lemma_alloc_object_keeps(q, s1.builtin(crate::id::BOUNDSERROR), 8);
    assert(q.alloc_object(s1.builtin(crate::id::BOUNDSERROR), 8).0.pop_roots(2).roots =~= s.roots);
    lemma_intern(s, s.builtin(crate::id::SYMBOL), msg);
    let (t1, sym) = s.intern(s.builtin(crate::id::SYMBOL), msg);
    let t2 = t1.push_root(sym);
    lemma_alloc_object_keeps(t2, t1.builtin(crate::id::ERROREXCEPTION), 4);
    assert(t2.alloc_object(t1.builtin(crate::id::ERROREXCEPTION), 4).0.pop_roots(1).roots
        =~= s.roots);
}

/// Making and reading buffers leaves the shadow stack as it was.
pub proof fn law_buffers_balance(s: State, elem: u32, len: u32, m: u32, i: u32)
    ensures
        s.mem_alloc(elem, len).0.roots == s.roots,
        s.mem_get(m, i).0.roots == s.roots,
{
    lemma_mem_alloc(s, elem, len);
    reveal(State::mem_get);
    law_errors_balance(s, m, (i + 1) as i64, Seq::empty());
    let e = s.mem_elem(m);
    match s.inline_size(e) {
        Some(n) => {
            let p = s.push_root(m);
            lemma_alloc_object_keeps(p, e, n as int);
            let (a, b) = p.alloc_object(e, n as int);
            assert(a.pop_roots(1).roots =~= s.roots);
            lemma_payload(a.pop_roots(1), b, 0, m, crate::memory::DATA + n * i, n as int, 0);
        },
        None => {},
    }
}

proof fn lemma_mem_alloc(s: State, elem: u32, len: u32)
    ensures
        s.mem_alloc(elem, len).0.roots == s.roots,
{
    reveal(State::mem_alloc);
    let s0 = s.push_root(elem);
    let nbytes = len * s0.elem_size(elem);
    let msg = crate::bytes::utf8(
        "invalid GenericMemory size: the number of elements is either negative or too large",
    );
    law_errors_balance(s0, 0, 0, msg);
    assert(s0.error_exception(msg).0.pop_roots(1).roots =~= s.roots);
    law_instantiation_balances(
        s0,
        s0.shared_name(3),
        s0.builtin(crate::id::ANY),
        seq![elem],
        crate::region::NULL,
        0,
    );
    let (s1, t) = s0.memory_type(elem);
    lemma_alloc_object_keeps(s1, t, crate::memory::DATA + nbytes);
    assert(s1.alloc_object(t, crate::memory::DATA + nbytes).0.pop_roots(1).roots =~= s.roots);
}

/// Making, reading and growing arrays leaves the shadow stack as it was.
pub proof fn law_arrays_balance(s: State, elem: u32, len: u32, a: u32, i: u32)
    ensures
        s.arr_alloc(elem, len).0.roots == s.roots,
        s.arr_get(a, i).0.roots == s.roots,
        s.arr_grow(a, i).0.roots == s.roots,
{
    lemma_arr_alloc(s, elem, len);
    law_errors_balance(s, a, (i + 1) as i64, Seq::empty());
    law_buffers_balance(
        s,
        elem,
        len,
        s.arr_mem(a),
        crate::structs::clip(s.arr_offset(a) + i),
    );
    lemma_arr_grow(s, a, i);
}

proof fn lemma_arr_alloc(s: State, elem: u32, len: u32)
    ensures
        s.arr_alloc(elem, len).0.roots == s.roots,
{
    reveal(State::arr_alloc);
    let p = s.push_root(elem);
    law_instantiation_balances(
        p,
        p.shared_name(4),
        p.builtin(crate::id::ANY),
        seq![elem],
        p.array_layout(),
        12,
    );
    let (s1, t) = p.array_type(elem);
    lemma_mem_alloc(s1, elem, len);
    let (s2, r) = s1.mem_alloc(elem, len);
    assert(s2.pop_roots(1).roots =~= s.roots);
    match r {
        Ok(m) => {
            let q = s2.push_root(m.0);
            lemma_alloc_object_keeps(q, t, crate::array::BODY as int);
            assert(q.alloc_object(t, crate::array::BODY as int).0.pop_roots(2).roots =~= s.roots);
        },
        Err(_) => {},
    }
}

proof fn lemma_arr_grow(s: State, a: u32, inc: u32)
    ensures
        s.arr_grow(a, inc).0.roots == s.roots,
{
    reveal(State::arr_grow);
    reveal(State::arr_move);
    law_errors_balance(
        s,
        a,
        0,
        crate::bytes::utf8("invalid Array size: too large for system address width"),
    );
    law_errors_balance(s, a, 0, crate::bytes::utf8("invalid Array size: too large"));
    let n = s.arr_len(a) + inc;
    let cap = crate::array::next_capacity(
        s.mem_len(s.arr_mem(a)) as int,
        s.arr_offset(a) + n,
    ) as u32;
    let p = s.push_root(a);
    lemma_mem_alloc(p, s.mem_elem(a), cap);
    let (s1, r) = p.mem_alloc(s.mem_elem(a), cap);
    assert(s1.pop_roots(1).roots =~= s.roots);
    match r {
        Ok(m) => {
            let src = s1.arr_mem(a);
            let bytes = s.arr_len(a) * s1.elem_size(s1.mem_elem(src));
            let d = crate::memory::DATA as int;
            lemma_payload(s1, m.0, d, src, d, bytes, 0);
            let s2 = s1.copy_payload(m.0, d, src, d, bytes, 0);
            assert(s2.set_ref(a, 0, m.0).pop_roots(1).roots =~= s.roots);
        },
        Err(_) => {},
    }
}

/// Making a module leaves the shadow stack as it was.
pub proof fn law_modules_balance(s: State, name: u32, parent: u32)
    ensures
        s.new_module(name, parent).0.roots == s.roots,
{
    reveal(State::new_module);
    let p = s.push_roots(seq![name, parent]);
    lemma_arr_alloc(p, s.builtin(crate::id::ANY), 0);
    let (s1, r) = p.arr_alloc(s.builtin(crate::id::ANY), 0);
    assert(s1.pop_roots(2).roots =~= s.roots);
    match r {
        Ok(b) => {
            let q = s1.push_root(b.0);
            let size = crate::module::BODY as int;
            lemma_alloc_object_keeps(q, s1.builtin(crate::id::MODULE), size);
            assert(q.alloc_object(s1.builtin(crate::id::MODULE), size).0.pop_roots(3).roots
                =~= s.roots);
        },
        Err(_) => {},
    }
}

} // verus!
