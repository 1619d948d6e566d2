//! Flat buffers, `GenericMemory{T}`.
//!
//! A buffer's payload is its length, the offset of its data, and the elements.
//! Elements of plain bits are stored inline, elements of a zero-size type take no
//! space, and all others are references.

use vstd::prelude::*;
use crate::access;
use crate::bytes::{push_bytes, push_text, text, utf8};
use crate::errors;
use crate::gc::{past_header, write_barrier};
use crate::id;
use crate::object::{alloc_object, type_of};
use crate::region::NULL;
use crate::state::{Runtime, State, Value};
use crate::structs::copy_payload;
use crate::symbol;
use crate::types::{issubtype, memory_type};

verus! {

/// The offset of the elements in a buffer's payload.
pub const DATA: u32 = 8;

impl State {
    /// The type of the elements of the buffer `m`.
    pub open spec fn mem_elem(self, m: u32) -> u32 {
        self.svec_ref(self.parameters(self.tag(m)), 0)
    }

    /// The bytes that an element of type `elem` takes.
    pub open spec fn elem_size(self, elem: u32) -> u32 {
        match self.inline_size(elem) {
            Some(n) => n,
            None => if self.is_zero_size(elem) {
                0
            } else {
                4
            },
        }
    }

    /// The number of elements of the buffer `m`.
    pub open spec fn mem_len(self, m: u32) -> u32 {
        self.word(m, 0)
    }

    /// A zeroed buffer of `len` elements.
    #[verifier::opaque]
    pub open spec fn mem_alloc(self, elem: u32, len: u32) -> (State, Result<Value, Value>) {
        let s0 = self.push_root(elem);
        let nbytes = len * s0.elem_size(elem);
        if nbytes >= u32::MAX - DATA {
            let (s1, e) = s0.error_exception(
                utf8(
                    "invalid GenericMemory size: the number of elements is either negative or too large",
                ),
            );
            (s1.pop_roots(1), Err(Value(e)))
        } else {
            let (s1, t) = s0.memory_type(elem);
            let (s2, m) = s1.alloc_object(t, DATA + nbytes);
            let s3 = s2.pop_roots(1);
            if m == NULL {
                (s3, Err(Value(s3.singleton(id::OUTOFMEMORYERROR))))
            } else {
                (s3.with_word(m, 0, len).with_word(m, 4, past_header(m)), Ok(Value(m)))
            }
        }
    }

    /// The element `i` of the buffer `m`; an inline element is boxed anew.
    #[verifier::opaque]
    pub open spec fn mem_get(self, m: u32, i: u32) -> (State, Result<Value, Value>) {
        let elem = self.mem_elem(m);
        if i >= self.mem_len(m) {
            let (s, e) = self.bounds_error(m, (i + 1) as i64);
            (s, Err(Value(e)))
        } else {
            match self.inline_size(elem) {
                Some(n) => {
                    let (s, b) = self.push_root(m).alloc_object(elem, n as int);
                    let s1 = s.pop_roots(1);
                    if b == NULL {
                        (s1, Err(Value(s1.singleton(id::OUTOFMEMORYERROR))))
                    } else {
                        (s1.copy_payload(b, 0, m, DATA + n * i, n as int, 0), Ok(Value(b)))
                    }
                },
                None => if self.is_zero_size(elem) {
                    (self, Ok(Value(self.instance_of(elem))))
                } else {
                    let r = self.word(m, DATA + 4 * i);
                    if r == NULL {
                        (self, Err(Value(self.singleton(id::UNDEFREFERROR))))
                    } else {
                        (self, Ok(Value(r)))
                    }
                },
            }
        }
    }

    /// The state with `v` stored, unchecked, as element `i` of the buffer `m`.
    pub open spec fn mem_store(self, m: u32, i: u32, v: u32) -> State {
        let elem = self.mem_elem(m);
        match self.inline_size(elem) {
            Some(n) => self.copy_payload(m, DATA + n * i, v, 0, n as int, 0),
            None => if self.is_zero_size(elem) {
                self
            } else {
                self.set_ref(m, DATA + 4 * i, v)
            },
        }
    }

    /// The message for a value that does not fit the element type.
    pub open spec fn misfit_text(self, elem: u32, vt: u32) -> Seq<u8> {
        utf8("TypeError: memoryrefset!: expected ") + self.sym_text(self.type_sym(elem)) + utf8(
            ", got ",
        ) + self.sym_text(self.type_sym(vt))
    }

    /// Whether a value of type `vt` may be an element of type `elem`.
    pub open spec fn elem_accepts(self, elem: u32, vt: u32) -> (State, bool) {
        if elem == self.builtin(id::ANY) || vt == elem {
            (self, true)
        } else {
            self.subtype(vt, elem, access::MAX_NESTING as nat)
        }
    }

    /// Assigns element `i` of the buffer `m`.
    #[verifier::opaque]
    pub open spec fn mem_set(self, m: u32, i: u32, v: u32) -> (State, Result<(), Value>) {
        if i >= self.mem_len(m) {
            let (s, e) = self.bounds_error(m, (i + 1) as i64);
            (s, Err(Value(e)))
        } else {
            let elem = self.mem_elem(m);
            let vt = self.tag(v);
            let (s, ok) = self.push_roots(seq![m, v]).elem_accepts(elem, vt);
            let s1 = s.pop_roots(2);
            if ok {
                (s1.mem_store(m, i, v), Ok(()))
            } else {
                let (s2, e) = s1.error_exception(s1.misfit_text(elem, vt));
                (s2, Err(Value(e)))
            }
        }
    }

    /// The state with `n` bytes of the block `m` from `at` on cleared, position `k`
    /// of them next.
    pub open spec fn clear_bytes(self, m: u32, at: int, n: int, k: int) -> State
        decreases n - k,
    {
        if k < 0 || k >= n {
            self
        } else {
            self.with_byte(m, at + k, 0).clear_bytes(m, at, n, k + 1)
        }
    }
}

/// The type of the elements of the buffer `m`.
pub fn elem_type_of(rt: &Runtime, m: Value) -> (r: u32)
    ensures
        r == rt@.mem_elem(m.0),
{
    access::svec_ref(rt, access::parameters_of(rt, type_of(rt, m)), 0)
}

/// The bytes that an element of type `elem` takes.
pub(crate) fn elem_byte_size(rt: &Runtime, elem: u32) -> (r: u32)
    ensures
        r == rt@.elem_size(elem),
{
    match access::inline_size(rt, elem) {
        Some(n) => n,
        None => if access::is_zero_size(rt, elem) {
            0
        } else {
            4
        },
    }
}

/// Makes a zeroed buffer of `len` elements.
pub fn alloc_memory(rt: &mut Runtime, elem: u32, len: u32) -> (r: Result<Value, Value>)
    ensures
        (final(rt)@, r) == old(rt)@.mem_alloc(elem, len),
{
    proof {
        reveal(State::mem_alloc);
    }
    rt.push_root(elem);
    let elsz: u32 = elem_byte_size(rt, elem);
    let nbytes: u64 = mul_sizes(len, elsz);
    if nbytes >= (u32::MAX - DATA) as u64 {
        let e: Value = errors::error_exception(
            rt,
            "invalid GenericMemory size: the number of elements is either negative or too large",
        );
        rt.pop_roots(1);
        return Err(e);
    }
    let t: u32 = memory_type(rt, elem);
    let m: Value = alloc_object(rt, t, DATA + nbytes as u32);
    rt.pop_roots(1);
    if m.is_null() {
        return Err(errors::out_of_memory(rt));
    }
    rt.set_word(m.0, 0, len);
    rt.set_word(
        m.0,
        4,
        if m.0 > u32::MAX - 8 {
            0
        } else {
            m.0 + 8
        },
    );
    Ok(m)
}

/// The product of two sizes.
fn mul_sizes(a: u32, b: u32) -> (r: u64)
    ensures
        r == a * b,
        r <= 0xffff_fffe_0000_0001,
{
    assert(0 <= a * b <= 0xffff_ffff * 0xffff_ffff) by (nonlinear_arith)
        requires
            0 <= a <= 0xffff_ffff,
            0 <= b <= 0xffff_ffff,
    ;
    (a as u64) * (b as u64)
}

/// The number of elements of the buffer `m`.
pub fn len(rt: &Runtime, m: Value) -> (r: u32)
    ensures
        r == rt@.mem_len(m.0),
{
    rt.word(m.0, 0)
}

/// Reads element `i` of the buffer `m`, counted from zero.
pub fn get(rt: &mut Runtime, m: Value, i: u32) -> (r: Result<Value, Value>)
    ensures
        (final(rt)@, r) == old(rt)@.mem_get(m.0, i),
{
    proof {
        reveal(State::mem_get);
    }
    if i >= len(rt, m) {
        return Err(errors::bounds_error(rt, m, i as i64 + 1));
    }
    let elem: u32 = elem_type_of(rt, m);
    match access::inline_size(rt, elem) {
        Some(n) => {
            rt.push_root(m.0);
            let b: Value = alloc_object(rt, elem, n);
            rt.pop_roots(1);
            if b.is_null() {
                return Err(errors::out_of_memory(rt));
            }
            let at: u64 = mul_sizes(n, i);
            copy_payload(rt, b.0, 0, m.0, DATA as u64 + at, n as u64);
            Ok(b)
        },
        None => {
            if access::is_zero_size(rt, elem) {
                return Ok(Value(access::instance_of(rt, elem)));
            }
            let r: u32 = rt.word(m.0, DATA as u64 + 4 * (i as u64));
            if r == NULL {
                return Err(errors::undef_ref_error(rt));
            }
            Ok(Value(r))
        },
    }
}

/// Stores `v`, unchecked, as element `i` of the buffer `m`.
fn store(rt: &mut Runtime, m: Value, i: u32, v: Value)
    ensures
        final(rt)@ == old(rt)@.mem_store(m.0, i, v.0),
{
    let elem: u32 = elem_type_of(rt, m);
    match access::inline_size(rt, elem) {
        Some(n) => {
            let at: u64 = mul_sizes(n, i);
            copy_payload(rt, m.0, DATA as u64 + at, v.0, 0, n as u64);
        },
        None => if !access::is_zero_size(rt, elem) {
            write_barrier(rt, m, v);
            rt.set_word(m.0, DATA as u64 + 4 * (i as u64), v.0);
        },
    }
}

/// Assigns element `i` of the buffer `m`, counted from zero.
pub fn set(rt: &mut Runtime, m: Value, i: u32, v: Value) -> (r: Result<(), Value>)
    ensures
        (final(rt)@, r) == old(rt)@.mem_set(m.0, i, v.0),
{
    proof {
        reveal(State::mem_set);
    }
    if i >= len(rt, m) {
        return Err(errors::bounds_error(rt, m, i as i64 + 1));
    }
    let elem: u32 = elem_type_of(rt, m);
    let vt: u32 = type_of(rt, v);
    let roots: Vec<u32> = vec![m.0, v.0];
    assert(roots@ =~= seq![m.0, v.0]);
    rt.push_roots(&roots);
    let ok: bool = elem == access::builtin(rt, id::ANY) || vt == elem || issubtype(rt, vt, elem);
    rt.pop_roots(2);
    if !ok {
        let mut msg: Vec<u8> = text("TypeError: memoryrefset!: expected ");
        let n1: Vec<u8> = symbol::as_str(rt, access::type_sym(rt, elem));
        push_bytes(&mut msg, n1.as_slice());
        push_text(&mut msg, ", got ");
        let n2: Vec<u8> = symbol::as_str(rt, access::type_sym(rt, vt));
        push_bytes(&mut msg, n2.as_slice());
        return Err(errors::wrap_msg(rt, msg));
    }
    store(rt, m, i, v);
    Ok(())
}

/// Copies the first `n` elements of `src` to `dst`.
pub(crate) fn copy_prefix(rt: &mut Runtime, dst: Value, src: Value, n: u32)
    ensures
        final(rt)@ == old(rt)@.copy_payload(
            dst.0,
            DATA as int,
            src.0,
            DATA as int,
            n * old(rt)@.elem_size(old(rt)@.mem_elem(src.0)),
            0,
        ),
{
    let elsz: u32 = elem_byte_size(rt, elem_type_of(rt, src));
    let nbytes: u64 = mul_sizes(n, elsz);
    copy_payload(rt, dst.0, DATA as u64, src.0, DATA as u64, nbytes);
}

/// Clears the elements of `m` from `from` up to `to`.
pub(crate) fn zero_range(rt: &mut Runtime, m: Value, from: u32, to: u32)
    requires
        from <= to,
    ensures
        final(rt)@ == old(rt)@.clear_bytes(
            m.0,
            DATA + from * old(rt)@.elem_size(old(rt)@.mem_elem(m.0)),
            (to - from) * old(rt)@.elem_size(old(rt)@.mem_elem(m.0)),
            0,
        ),
{
    let elsz: u32 = elem_byte_size(rt, elem_type_of(rt, m));
    let ghost s0 = rt@;
    let start: u64 = mul_sizes(from, elsz);
    let n: u64 = mul_sizes(to - from, elsz);
    assert(start + n <= 0xffff_fffe_0000_0001) by (nonlinear_arith)
        requires
            start == from * elsz,
            n == (to - from) * elsz,
            0 <= from <= to <= 0xffff_ffff,
            0 <= elsz <= 0xffff_ffff,
    ;
    let at: u64 = DATA as u64 + start;
    let mut k: u64 = 0;
    while k < n
        invariant
            k <= n,
            at + n <= u64::MAX,
            s0.clear_bytes(m.0, at as int, n as int, 0) == rt@.clear_bytes(
                m.0,
                at as int,
                n as int,
                k as int,
            ),
        decreases n - k,
    {
        rt.set_byte(m.0, at + k, 0);
        k = k + 1;
    }
}

/// A reference stored in a buffer of references is read back.
pub proof fn law_get_after_set(s: State, m: u32, i: u32, v: u32)
    requires
        i < s.mem_len(m),
        s.elem_boxed(s.mem_elem(m)),
        v != NULL,
        DATA + 4 * i + 4 <= s.data(m).len(),
        s.mem_store(m, i, v).mem_elem(m) == s.mem_elem(m),
        s.mem_store(m, i, v).elem_boxed(s.mem_elem(m)),
    ensures
        s.mem_store(m, i, v).mem_get(m, i) == (
            s.mem_store(m, i, v),
            Ok::<Value, Value>(Value(v)),
        ),
{
    reveal(State::mem_get);
    crate::object::law_get_ref_after_set_ref(s, m, DATA + 4 * i, v);
    let s1 = s.write_barrier(m, v);
    crate::bytes::lemma_word_read_other(s1.data(m), DATA + 4 * i, 0, v);
}

} // verus!
