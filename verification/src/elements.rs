//! What an array or a struct gives back: a reference as it was assigned, and an element
//! or a field that stands in the object itself as a new value of the same type and
//! bytes.

use vstd::prelude::*;
use crate::id;
use crate::memory::DATA;
use crate::region::NULL;
use crate::state::{State, Value};
use crate::structs::clip;
use crate::writes::{
    lemma_barrier, lemma_copy, lemma_described_written, lemma_more_refs_healthy,
    lemma_others_refs, lemma_refs_stay_heap, written,
};

verus! {

impl State {
    /// Whether `m` is a buffer whose elements stand in it, `n` bytes each.
    pub open spec fn inline_buffer(self, m: u32, n: u32) -> bool {
        let t = self.tag(m);
        &&& self.good(m)
        &&& self.obj(m) is Some
        &&& self.unread(m)
        &&& self.is_memory_type(t)
        &&& t != NULL && t != self.builtin(id::SVEC)
        &&& self.obj(self.mem_elem(m)) is Some
        &&& self.inline_size(self.mem_elem(m)) == Some(n)
        &&& self.data(m).len() == DATA + n * self.mem_len(m)
        &&& m != self.builtin(id::DATATYPE) && m != self.builtin(id::TYPENAME)
    }
}

/// The bytes of an inline element lie in its buffer.
proof fn lemma_in_buffer(n: int, i: int, len: int)
    by (nonlinear_arith)
    requires
        0 <= n,
        0 <= i < len,
    ensures
        0 <= n * i,
        n * i + n <= n * len,
{
}

/// What a store of an inline element does.
#[verifier::rlimit(80)]
#[verifier::spinoff_prover]
proof fn lemma_inline_store(s: State, m: u32, n: u32, i: u32, v: u32)
    requires
        s.healthy(),
        s.described(),
        s.inline_buffer(m, n),
        i < s.mem_len(m),
        v != m,
        s.tag(v) == s.mem_elem(m),
        n <= s.data(v).len(),
    ensures
        ({
            let (e, r) = s.mem_set(m, i, v);
            &&& r is Ok
            &&& e.healthy()
            &&& e.described()
            &&& e == (State { objs: e.objs, ..s })
            &&& written(s, e, m, m)
            &&& e.good(m)
            &&& e.mem_len(m) == s.mem_len(m)
            &&& e.mem_elem(m) == s.mem_elem(m)
            &&& e.inline_size(s.mem_elem(m)) == Some(n)
            &&& e.data(m).len() == s.data(m).len()
            &&& forall|k: int|
                0 <= k < n ==> #[trigger] e.data(m)[DATA + n * i + k] == s.data(v)[k]
        }),
{
    reveal(State::mem_set);
    let elem = s.mem_elem(m);
    let at = DATA + n * i;
    lemma_in_buffer(n as int, i as int, s.mem_len(m) as int);
    assert(s.push_roots(seq![m, v]).pop_roots(2) =~= s);
    assert(s.push_roots(seq![m, v]).tag(v) == s.tag(v));
    let e = s.copy_payload(m, at, v, 0, n as int, 0);
    assert(s.mem_set(m, i, v) == (e, Ok::<(), Value>(())));
    lemma_copy(s, m, at, v, 0, n as int, 0);
    assert forall|u: u32| #[trigger] e.obj(u) is Some <==> s.obj(u) is Some by {
        assert(u != m ==> e.obj(u) == s.obj(u));
    }
    assert forall|u: u32| #[trigger] e.tag(u) == s.tag(u) by {
        assert(u != m ==> e.obj(u) == s.obj(u));
    }
    assert forall|u: u32| u != m implies #[trigger] e.data(u) == s.data(u) by {
        assert(e.obj(u) == s.obj(u));
    }
    assert(written(s, e, m, m));
    assert forall|k: int| 0 <= k < n implies #[trigger] e.data(m)[at + k] == s.data(v)[k] by {
        assert(e.data(m)[at + k] == s.data(v)[at + k - at + 0]);
    }
    assert(e.mem_len(m) == s.mem_len(m)) by {
        assert(forall|j: int| 0 <= j < 4 ==> #[trigger] e.data(m)[j] == s.data(m)[j]);
    }
    lemma_inline_kept(s, e, m, n);
    assert forall|u: u32| s.good(u) && s.obj(u) is Some implies #[trigger] e.refs_of(u)
        == s.refs_of(u) by {
        if u != m {
            lemma_others_refs(s, e, m, m, u);
        }
    }
    lemma_refs_stay_heap(s, e, m);
    assert forall|u: u32| #[trigger] e.is_marked(u) == s.is_marked(u) by {
        assert(u != m ==> e.obj(u) == s.obj(u));
    }
    lemma_more_refs_healthy(s, e, m, m, NULL);
    lemma_described_written(s, e, m);
}

/// The element type of a buffer, and its references, which are none but its type, stay
/// when its payload is written.
proof fn lemma_inline_kept(s: State, e: State, m: u32, n: u32)
    requires
        s.inline_buffer(m, n),
        written(s, e, m, m),
    ensures
        e.mem_elem(m) == s.mem_elem(m),
        e.inline_size(s.mem_elem(m)) == Some(n),
        e.refs_of(m) == s.refs_of(m),
{
    reveal(State::refs_of);
    let fuel = crate::access::MAX_NESTING as nat;
    let t = s.tag(m);
    let k = s.parameters(t);
    let elem = s.mem_elem(m);
    assert(t != m && k != m);
    assert(e.tag(t) == s.tag(t) && e.data(t) == s.data(t) && e.data(k) == s.data(k));
    assert forall|y: u32| #[trigger] s.bits_read(elem, y, fuel) implies s.tag(y) == e.tag(y)
        && s.data(y) == e.data(y) by {
        assert(y != m);
        assert(e.tag(y) == s.tag(y));
    }
    crate::survival::lemma_local_bits(s, e, elem, fuel);
    assert(s.bits_read(elem, elem, fuel));
    assert(e.refs_of(m) =~= s.refs_of(m));
}

/// A value allocated while a buffer is rooted: the buffer stays as it is.
proof fn lemma_fresh(s: State, m: u32, t: u32, n: u32)
    requires
        s.healthy(),
        s.described(),
        s.good(m),
        s.obj(m) is Some,
    ensures
        ({
            let (h, b) = s.push_root(m).alloc_object(t, n as int);
            let a = h.pop_roots(1);
            b != NULL ==> {
                &&& b != m
                &&& s.kept(a, m)
                &&& a.obj(b) is Some
                &&& a.tag(b) == t - t % 4
                &&& a.data(b).len() == n
            }
        }),
{
    let xs = seq![m];
    let p = s.push_root(m);
    assert(p.roots =~= s.push_roots(xs).roots);
    assert(p =~= s.push_roots(xs));
    let (h, b) = p.alloc_object(t, n as int);
    crate::uniquing::lemma_alloc_pushed(s, xs, t, n as int);
    let a = h.pop_roots(1);
    assert(xs[0] == m && xs.len() == 1);
    crate::survival::lemma_reaches_self(s, m);
    assert(s.kept(a, m));
    crate::survival::lemma_reaches_self(a, m);
}

/// What copying an element out of a buffer gives.
proof fn lemma_copied_out(s: State, b: u32, m: u32, at: int, n: u32)
    requires
        b != m,
        s.obj(b) is Some,
        s.data(b).len() == n,
        0 <= at,
        at + n <= s.data(m).len(),
    ensures
        ({
            let g = s.copy_payload(b, 0, m, at, n as int, 0);
            &&& g.tag(b) == s.tag(b)
            &&& g.data(b) == s.data(m).subrange(at, at + n)
        }),
{
    lemma_copy(s, b, 0, m, at, n as int, 0);
    let g = s.copy_payload(b, 0, m, at, n as int, 0);
    assert(g.data(b) =~= s.data(m).subrange(at, at + n)) by {
        assert forall|k: int| 0 <= k < n implies #[trigger] g.data(b)[k] == s.data(m)[at + k] by {
            assert(g.data(b)[k] == s.data(m)[k - 0 + at]);
        }
    }
}

/// What is read of an inline buffer is a new value with the bytes that stand there.
#[verifier::rlimit(80)]
#[verifier::spinoff_prover]
proof fn lemma_inline_get(s: State, m: u32, n: u32, i: u32)
    requires
        s.healthy(),
        s.described(),
        s.good(m),
        s.obj(m) is Some,
        i < s.mem_len(m),
        s.inline_size(s.mem_elem(m)) == Some(n),
        s.obj(s.mem_elem(m)) is Some,
        DATA + n * i + n <= s.data(m).len(),
        0 <= n * i,
    ensures
        ({
            let (g, got) = s.mem_get(m, i);
            got matches Ok(b) ==> g.tag(b.0) == s.mem_elem(m) && g.data(b.0) == s.data(m).subrange(
                DATA + n * i,
                DATA + n * i + n,
            )
        }),
{
    reveal(State::mem_get);
    let elem = s.mem_elem(m);
    let (h, b) = s.push_root(m).alloc_object(elem, n as int);
    let a = h.pop_roots(1);
    assert(s.has_slot(elem));
    lemma_fresh(s, m, elem, n);
    if b != NULL {
        lemma_copied_out(a, b, m, DATA + n * i, n);
    }
}

/// An element of an inline buffer is read back as a new value of the same type with
/// the bytes that were stored.
pub proof fn law_inline_element_is_read_back(s: State, m: u32, n: u32, i: u32, v: u32)
    requires
        s.healthy(),
        s.described(),
        s.inline_buffer(m, n),
        i < s.mem_len(m),
        v != m,
        s.tag(v) == s.mem_elem(m),
        n <= s.data(v).len(),
    ensures
        ({
            let (e, r) = s.mem_set(m, i, v);
            let (g, got) = e.mem_get(m, i);
            &&& r is Ok
            &&& got matches Ok(b) ==> g.tag(b.0) == s.tag(v) && g.data(b.0) == s.data(v).take(
                n as int,
            )
        }),
{
    lemma_inline_store(s, m, n, i, v);
    lemma_in_buffer(n as int, i as int, s.mem_len(m) as int);
    let e = s.mem_set(m, i, v).0;
    assert(e.obj(s.mem_elem(m)) is Some);
    lemma_inline_get(e, m, n, i);
    let at = DATA + n * i;
    assert(e.data(m).subrange(at, at + n) =~= s.data(v).take(n as int)) by {
        assert forall|k: int| 0 <= k < n implies #[trigger] e.data(m).subrange(at, at + n)[k]
            == s.data(v)[k] by {
            assert(e.data(m)[DATA + n * i + k] == s.data(v)[k]);
        }
    }
}

/// What was assigned to an element of an array is read back: an inline element as a
/// new value of the same type and bytes.
pub proof fn law_array_element_is_read_back(s: State, a: u32, n: u32, i: u32, v: u32)
    requires
        s.healthy(),
        s.described(),
        s.inline_buffer(s.arr_mem(a), n),
        a != s.arr_mem(a),
        i < s.arr_len(a),
        s.arr_offset(a) + s.arr_len(a) <= s.mem_len(s.arr_mem(a)),
        v != s.arr_mem(a),
        s.tag(v) == s.mem_elem(s.arr_mem(a)),
        n <= s.data(v).len(),
    ensures
        ({
            let (e, r) = s.arr_set(a, i, v);
            let (g, got) = e.arr_get(a, i);
            &&& r is Ok
            &&& got matches Ok(b) ==> g.tag(b.0) == s.tag(v) && g.data(b.0) == s.data(v).take(
                n as int,
            )
        }),
{
    let m = s.arr_mem(a);
    let k = clip(s.arr_offset(a) + i);
    lemma_inline_store(s, m, n, k, v);
    law_inline_element_is_read_back(s, m, n, k, v);
    let e = s.mem_set(m, k, v).0;
    assert(e.data(a) == s.data(a));
}

/// A store of a reference leaves the element type of a buffer.
proof fn lemma_boxed_kept(s: State, e: State, m: u32)
    requires
        s.obj(m) is Some,
        s.unread(m),
        s.is_memory_type(s.tag(m)),
        s.tag(m) != s.builtin(id::SVEC),
        s.elem_boxed(s.mem_elem(m)),
        written(s, e, m, m),
    ensures
        e.mem_elem(m) == s.mem_elem(m),
        e.elem_boxed(s.mem_elem(m)),
{
    let fuel = crate::access::MAX_NESTING as nat;
    let t = s.tag(m);
    let k = s.parameters(t);
    let elem = s.mem_elem(m);
    assert(t != m && k != m);
    assert(e.tag(t) == s.tag(t) && e.data(t) == s.data(t) && e.data(k) == s.data(k));
    assert forall|y: u32| #[trigger] s.bits_read(elem, y, fuel) implies s.tag(y) == e.tag(y)
        && s.data(y) == e.data(y) by {
        assert(y != m);
        assert(e.tag(y) == s.tag(y));
    }
    crate::survival::lemma_local_bits(s, e, elem, fuel);
    assert(s.bits_read(elem, elem, fuel));
}

/// A reference assigned to an element of an array of references is read back as it is.
pub proof fn law_array_reference_is_read_back(s: State, a: u32, i: u32, v: u32)
    requires
        ({
            let m = s.arr_mem(a);
            &&& a != m
            &&& s.obj(m) is Some
            &&& s.unread(m)
            &&& s.is_memory_type(s.tag(m))
            &&& s.tag(m) != s.builtin(id::SVEC)
            &&& s.elem_boxed(s.mem_elem(m))
            &&& s.mem_elem(m) == s.builtin(id::ANY) || s.mem_elem(m) == s.tag(v)
            &&& s.data(m).len() == DATA + 4 * s.mem_len(m)
            &&& s.arr_offset(a) + s.arr_len(a) <= s.mem_len(m)
        }),
        i < s.arr_len(a),
        v != NULL,
    ensures
        ({
            let (e, r) = s.arr_set(a, i, v);
            &&& r is Ok
            &&& e.arr_get(a, i) == (e, Ok::<Value, Value>(Value(v)))
        }),
{
    reveal(State::mem_set);
    let m = s.arr_mem(a);
    let k = clip(s.arr_offset(a) + i);
    assert(s.push_roots(seq![m, v]).pop_roots(2) =~= s);
    assert(s.push_roots(seq![m, v]).tag(v) == s.tag(v));
    let e = s.set_ref(m, DATA + 4 * k, v);
    assert(s.mem_set(m, k, v) == (e, Ok::<(), Value>(())));
    lemma_barrier(s, m, v);
    let w = s.write_barrier(m, v);
    assert(w.obj(m) is Some);
    crate::health::lemma_word_only_at(w, m, DATA + 4 * k, v);
    assert forall|u: u32| #[trigger] e.obj(u) is Some <==> s.obj(u) is Some by {
        assert(w.obj(u) is Some <==> s.obj(u) is Some);
        assert(u != m ==> e.obj(u) == w.obj(u));
    }
    assert forall|u: u32| #[trigger] e.tag(u) == s.tag(u) by {
        assert(w.tag(u) == s.tag(u));
        assert(u != m ==> e.obj(u) == w.obj(u));
    }
    assert forall|u: u32| u != m implies #[trigger] e.data(u) == s.data(u) by {
        assert(w.data(u) == s.data(u));
        assert(e.obj(u) == w.obj(u));
    }
    lemma_boxed_kept(s, e, m);
    crate::memory::law_get_after_set(s, m, k, v);
    assert(e.data(a) == s.data(a));
}

impl State {
    /// Whether field `i` of `v` stands in it, `n` bytes, away from its references.
    pub open spec fn inline_field(self, v: u32, i: u32, n: u32) -> bool {
        let t = self.tag(v);
        let off = self.field_offset(t, i as int);
        let ft = self.field_type(t, i as int);
        &&& self.good(v)
        &&& self.obj(v) is Some
        &&& self.unread(v)
        &&& t != NULL && !self.is_svec(t) && !self.is_memory_type(t)
        &&& t != self.builtin(id::DATATYPE)
        &&& i < self.nfields_of(t)
        &&& !self.field_isptr(t, i as int)
        &&& self.field_size(t, i as int) == n
        &&& off + n <= self.data(v).len()
        &&& forall|k: int|
            0 <= k < self.layout_npointers(t) ==> {
                let at = #[trigger] self.layout_ptr_offset(t, k);
                at + 4 <= off || off + n <= at
            }
        &&& self.obj(ft) is Some
        &&& self.instance_of(ft) == NULL
        &&& v != ft && v != self.field_types(t)
        &&& v != self.builtin(id::DATATYPE) && v != self.builtin(id::TYPENAME)
    }
}

/// Writing the bytes of an inline field leaves the references of the struct.
proof fn lemma_field_refs(s: State, e: State, v: u32, i: u32, n: u32)
    requires
        s.inline_field(v, i, n),
        written(s, e, v, v),
        e.data(v).len() == s.data(v).len(),
        ({
            let off = s.field_offset(s.tag(v), i as int);
            forall|j: int|
                0 <= j < s.data(v).len() && !(off <= j < off + n) ==> #[trigger] e.data(v)[j]
                    == s.data(v)[j]
        }),
    ensures
        e.refs_of(v) == s.refs_of(v),
{
    reveal(State::refs_of);
    let t = s.tag(v);
    assert(t != v);
    assert(e.tag(v) == t);
    assert(e.data(t) == s.data(t) && e.tag(t) == s.tag(t));
    assert forall|k: int| 0 <= k < s.layout_npointers(t) implies e.word(
        v,
        (#[trigger] s.layout_ptr_offset(t, k)) as int,
    ) == s.word(v, s.layout_ptr_offset(t, k) as int) by {
        let at = s.layout_ptr_offset(t, k);
        if at + 4 <= s.data(v).len() {
            assert(forall|j: int| at <= j < at + 4 ==> #[trigger] e.data(v)[j] == s.data(v)[j]);
        }
    }
    assert(e.refs_of(v) =~= s.refs_of(v));
}

/// What a store into an inline field does.
#[verifier::rlimit(80)]
#[verifier::spinoff_prover]
proof fn lemma_field_store(s: State, v: u32, i: u32, n: u32, rhs: u32)
    requires
        s.healthy(),
        s.described(),
        s.inline_field(v, i, n),
        rhs != v,
        n <= s.data(rhs).len(),
    ensures
        ({
            let e = s.set_field_raw(v, s.tag(v), i as int, rhs);
            let off = s.field_offset(s.tag(v), i as int);
            &&& e.healthy()
            &&& e.described()
            &&& written(s, e, v, v)
            &&& e.good(v)
            &&& e.data(v).len() == s.data(v).len()
            &&& forall|k: int| 0 <= k < n ==> #[trigger] e.data(v)[off + k] == s.data(rhs)[k]
        }),
{
    let t = s.tag(v);
    let off = s.field_offset(t, i as int) as int;
    let e = s.copy_payload(v, off, rhs, 0, n as int, 0);
    assert(s.set_field_raw(v, t, i as int, rhs) == e);
    lemma_copy(s, v, off, rhs, 0, n as int, 0);
    assert forall|u: u32| #[trigger] e.obj(u) is Some <==> s.obj(u) is Some by {
        assert(u != v ==> e.obj(u) == s.obj(u));
    }
    assert forall|u: u32| #[trigger] e.tag(u) == s.tag(u) by {
        assert(u != v ==> e.obj(u) == s.obj(u));
    }
    assert forall|u: u32| u != v implies #[trigger] e.data(u) == s.data(u) by {
        assert(e.obj(u) == s.obj(u));
    }
    assert(written(s, e, v, v));
    assert forall|k: int| 0 <= k < n implies #[trigger] e.data(v)[off + k] == s.data(rhs)[k] by {
        assert(e.data(v)[off + k] == s.data(rhs)[off + k - off + 0]);
    }
    lemma_field_refs(s, e, v, i, n);
    assert forall|u: u32| s.good(u) && s.obj(u) is Some implies #[trigger] e.refs_of(u)
        == s.refs_of(u) by {
        if u != v {
            lemma_others_refs(s, e, v, v, u);
        }
    }
    lemma_refs_stay_heap(s, e, v);
    assert forall|u: u32| #[trigger] e.is_marked(u) == s.is_marked(u) by {
        assert(u != v ==> e.obj(u) == s.obj(u));
    }
    lemma_more_refs_healthy(s, e, v, v, NULL);
    lemma_described_written(s, e, v);
}

/// What is read of an inline field is a new value with the bytes that stand there.
#[verifier::rlimit(80)]
#[verifier::spinoff_prover]
proof fn lemma_field_get(e: State, v: u32, i: u32, n: u32)
    requires
        e.healthy(),
        e.described(),
        e.good(v),
        e.obj(v) is Some,
        i < e.nfields_of(e.tag(v)),
        !e.field_isptr(e.tag(v), i as int),
        e.field_size(e.tag(v), i as int) == n,
        e.field_offset(e.tag(v), i as int) + n <= e.data(v).len(),
        e.obj(e.field_type(e.tag(v), i as int)) is Some,
        e.instance_of(e.field_type(e.tag(v), i as int)) == NULL,
    ensures
        ({
            let t = e.tag(v);
            let off = e.field_offset(t, i as int) as int;
            let (g, got) = e.get_nth_field(v, i);
            got matches Ok(b) ==> g.tag(b.0) == e.field_type(t, i as int) && g.data(b.0)
                == e.data(v).subrange(off, off + n)
        }),
{
    reveal(State::get_nth_field);
    let t = e.tag(v);
    let ft = e.field_type(t, i as int);
    let off = e.field_offset(t, i as int) as int;
    let (h, b) = e.push_root(v).alloc_object(ft, n as int);
    let a = h.pop_roots(1);
    assert(e.has_slot(ft));
    lemma_fresh(e, v, ft, n);
    if b != NULL {
        lemma_copied_out(a, b, v, off, n);
    }
}

/// A field that stands in the struct is read back as a new value of the field's type
/// with the bytes that were stored.
pub proof fn law_inline_field_is_read_back(s: State, v: u32, i: u32, n: u32, rhs: u32)
    requires
        s.healthy(),
        s.described(),
        s.inline_field(v, i, n),
        rhs != v,
        n <= s.data(rhs).len(),
    ensures
        ({
            let e = s.set_field_raw(v, s.tag(v), i as int, rhs);
            let (g, got) = e.get_nth_field(v, i);
            got matches Ok(b) ==> g.tag(b.0) == s.field_type(s.tag(v), i as int) && g.data(b.0)
                == s.data(rhs).take(n as int)
        }),
{
    let t = s.tag(v);
    let off = s.field_offset(t, i as int) as int;
    let e = s.set_field_raw(v, t, i as int, rhs);
    let ft = s.field_type(t, i as int);
    lemma_field_store(s, v, i, n, rhs);
    assert(t != v);
    assert(e.tag(v) == t);
    assert(e.data(t) == s.data(t));
    assert(e.data(s.field_types(t)) == s.data(s.field_types(t)));
    assert(e.data(ft) == s.data(ft));
    assert(e.obj(ft) is Some);
    lemma_field_get(e, v, i, n);
    assert(e.data(v).subrange(off, off + n) =~= s.data(rhs).take(n as int)) by {
        assert forall|k: int| 0 <= k < n implies #[trigger] e.data(v).subrange(off, off + n)[k]
            == s.data(rhs)[k] by {
            assert(e.data(v)[off + k] == s.data(rhs)[k]);
        }
    }
}

} // verus!
