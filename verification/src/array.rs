//! One-dimensional arrays, `Array{T}`, over flat buffers.
//!
//! An array's payload is its buffer, the position of its first element in the
//! buffer, and its length. It replaces its buffer as it grows.

use vstd::prelude::*;
use crate::access;
use crate::bytes::utf8;
use crate::errors;
use crate::id;
use crate::memory;
use crate::memory::{alloc_memory, copy_prefix, zero_range, DATA};
use crate::object::{alloc_object, get_ref, set_ref, type_of};
use crate::region::NULL;
use crate::state::{Runtime, State, Value};
use crate::structs::{add_clipped, clip};
use crate::types::array_type;

verus! {

/// The payload size of an array.
pub const BODY: u32 = 12;

/// The capacity to grow to from a full buffer of `n` elements.
pub open spec fn next_capacity(n: int, needed: int) -> int {
    let c = if n < 4 {
        4
    } else if n < 48 {
        n * 3 / 2
    } else {
        n * 6 / 5
    };
    if c < needed {
        needed
    } else {
        c
    }
}

impl State {
    pub open spec fn arr_mem(self, a: u32) -> u32 {
        self.word(a, 0)
    }

    pub open spec fn arr_offset(self, a: u32) -> u32 {
        self.word(a, 4)
    }

    pub open spec fn arr_len(self, a: u32) -> u32 {
        self.word(a, 8)
    }

    /// An array of `len` unset elements.
    #[verifier::opaque]
    pub open spec fn arr_alloc(self, elem: u32, len: u32) -> (State, Result<Value, Value>) {
        let (s1, t) = self.push_root(elem).array_type(elem);
        match s1.mem_alloc(elem, len) {
            (s2, Err(e)) => (s2.pop_roots(1), Err(e)),
            (s2, Ok(m)) => {
                let (s3, a) = s2.push_root(m.0).alloc_object(t, BODY as int);
                let s4 = s3.pop_roots(2);
                if a == NULL {
                    (s4, Err(Value(s4.singleton(id::OUTOFMEMORYERROR))))
                } else {
                    (
                        s4.with_word(a, 0, m.0).with_word(a, 4, 0).with_word(a, 8, len),
                        Ok(Value(a)),
                    )
                }
            },
        }
    }

    /// The element `i` of the array `a`.
    pub open spec fn arr_get(self, a: u32, i: u32) -> (State, Result<Value, Value>) {
        if i >= self.arr_len(a) {
            let (s, e) = self.bounds_error(a, (i + 1) as i64);
            (s, Err(Value(e)))
        } else {
            self.mem_get(self.arr_mem(a), clip(self.arr_offset(a) + i))
        }
    }

    /// Assigns element `i` of the array `a`.
    pub open spec fn arr_set(self, a: u32, i: u32, v: u32) -> (State, Result<(), Value>) {
        if i >= self.arr_len(a) {
            let (s, e) = self.bounds_error(a, (i + 1) as i64);
            (s, Err(Value(e)))
        } else {
            self.mem_set(self.arr_mem(a), clip(self.arr_offset(a) + i), v)
        }
    }

    /// The array `a` moved to a buffer of `cap` elements.
    #[verifier::opaque]
    pub open spec fn arr_move(self, a: u32, cap: u32) -> (State, Result<(), Value>) {
        let n = self.arr_len(a);
        match self.push_root(a).mem_alloc(self.mem_elem(a), cap) {
            (s1, Err(e)) => (s1.pop_roots(1), Err(e)),
            (s1, Ok(m)) => {
                let src = s1.arr_mem(a);
                let s2 = s1.copy_payload(
                    m.0,
                    DATA as int,
                    src,
                    DATA as int,
                    n * s1.elem_size(s1.mem_elem(src)),
                    0,
                );
                (s2.set_ref(a, 0, m.0).pop_roots(1), Ok(()))
            },
        }
    }

    /// Grows the array `a` by `inc` unset elements.
    #[verifier::opaque]
    pub open spec fn arr_grow(self, a: u32, inc: u32) -> (State, Result<(), Value>) {
        let n = self.arr_len(a) + inc;
        let needed = self.arr_offset(a) + n;
        let have = self.mem_len(self.arr_mem(a)) as int;
        if n > u32::MAX {
            let (s, e) = self.error_exception(
                utf8("invalid Array size: too large for system address width"),
            );
            (s, Err(Value(e)))
        } else if needed <= have {
            (self.with_word(a, 8, n as u32), Ok(()))
        } else if next_capacity(have, needed) > u32::MAX {
            let (s, e) = self.error_exception(utf8("invalid Array size: too large"));
            (s, Err(Value(e)))
        } else {
            match self.arr_move(a, next_capacity(have, needed) as u32) {
                (s, Ok(_)) => (s.with_word(a, 8, n as u32), Ok(())),
                (s, Err(e)) => (s, Err(e)),
            }
        }
    }

    /// Drops the last `dec` elements of the array `a`.
    #[verifier::opaque]
    pub open spec fn arr_shrink(self, a: u32, dec: u32) -> (State, Result<(), Value>) {
        if self.arr_len(a) < dec {
            let (s, e) = self.bounds_error(a, 0);
            (s, Err(Value(e)))
        } else {
            let n = (self.arr_len(a) - dec) as u32;
            let s = self.with_word(a, 8, n);
            let m = s.arr_mem(a);
            let from = clip(s.arr_offset(a) + n);
            let to = clip(from + dec);
            let size = s.elem_size(s.mem_elem(m));
            (s.clear_bytes(m, DATA + from * size, (to - from) * size, 0), Ok(()))
        }
    }

    /// Appends `v` to the array `a`.
    #[verifier::opaque]
    pub open spec fn arr_push(self, a: u32, v: u32) -> (State, Result<(), Value>) {
        match self.push_roots(seq![a, v]).arr_grow(a, 1) {
            (s, Err(e)) => (s.pop_roots(2), Err(e)),
            (s, Ok(_)) => {
                let n = s.arr_len(a);
                let (s1, r) = s.arr_set(
                    a,
                    if n > 0 {
                        (n - 1) as u32
                    } else {
                        0
                    },
                    v,
                );
                (s1.pop_roots(2), r)
            },
        }
    }
}

/// The buffer of the array `a`.
pub fn mem_of(rt: &Runtime, a: Value) -> (r: Value)
    ensures
        r.0 == rt@.arr_mem(a.0),
{
    get_ref(rt, a, 0)
}

/// The position of the first element in the buffer.
fn offset_of(rt: &Runtime, a: Value) -> (r: u32)
    ensures
        r == rt@.arr_offset(a.0),
{
    rt.word(a.0, 4)
}

/// The number of elements of the array `a`.
pub fn len(rt: &Runtime, a: Value) -> (r: u32)
    ensures
        r == rt@.arr_len(a.0),
{
    rt.word(a.0, 8)
}

/// The type of the elements of the array `a`.
pub fn elem_type_of(rt: &Runtime, a: Value) -> (r: u32)
    ensures
        r == rt@.mem_elem(a.0),
{
    access::svec_ref(rt, access::parameters_of(rt, type_of(rt, a)), 0)
}

/// Makes an array of `len` unset elements.
pub fn alloc_1d(rt: &mut Runtime, elem: u32, len: u32) -> (r: Result<Value, Value>)
    ensures
        (final(rt)@, r) == old(rt)@.arr_alloc(elem, len),
{
    proof {
        reveal(State::arr_alloc);
    }
    rt.push_root(elem);
    let t: u32 = array_type(rt, elem);
    match alloc_memory(rt, elem, len) {
        Err(e) => {
            rt.pop_roots(1);
            Err(e)
        },
        Ok(m) => {
            rt.push_root(m.0);
            let a: Value = alloc_object(rt, t, BODY);
            rt.pop_roots(2);
            if a.is_null() {
                return Err(errors::out_of_memory(rt));
            }
            rt.set_word(a.0, 0, m.0);
            rt.set_word(a.0, 4, 0);
            rt.set_word(a.0, 8, len);
            Ok(a)
        },
    }
}

/// Reads element `i` of the array `a`, counted from zero.
pub fn aref(rt: &mut Runtime, a: Value, i: u32) -> (r: Result<Value, Value>)
    ensures
        (final(rt)@, r) == old(rt)@.arr_get(a.0, i),
{
    if i >= len(rt, a) {
        return Err(errors::bounds_error(rt, a, i as i64 + 1));
    }
    let m: Value = mem_of(rt, a);
    let k: u32 = add_clipped(offset_of(rt, a), i);
    memory::get(rt, m, k)
}

/// Assigns element `i` of the array `a`, counted from zero.
pub fn aset(rt: &mut Runtime, a: Value, i: u32, v: Value) -> (r: Result<(), Value>)
    ensures
        (final(rt)@, r) == old(rt)@.arr_set(a.0, i, v.0),
{
    if i >= len(rt, a) {
        return Err(errors::bounds_error(rt, a, i as i64 + 1));
    }
    let m: Value = mem_of(rt, a);
    let k: u32 = add_clipped(offset_of(rt, a), i);
    memory::set(rt, m, k, v)
}

/// Moves the array `a` to a buffer of `cap` elements.
fn move_to(rt: &mut Runtime, a: Value, cap: u32) -> (r: Result<(), Value>)
    ensures
        (final(rt)@, r) == old(rt)@.arr_move(a.0, cap),
{
    proof {
        reveal(State::arr_move);
    }
    let n: u32 = len(rt, a);
    let elem: u32 = elem_type_of(rt, a);
    rt.push_root(a.0);
    match alloc_memory(rt, elem, cap) {
        Err(e) => {
            rt.pop_roots(1);
            Err(e)
        },
        Ok(m) => {
            let src: Value = mem_of(rt, a);
            copy_prefix(rt, m, src, n);
            set_ref(rt, a, 0, m);
            rt.pop_roots(1);
            Ok(())
        },
    }
}

/// Grows the array `a` by `inc` unset elements.
pub fn grow_end(rt: &mut Runtime, a: Value, inc: u32) -> (r: Result<(), Value>)
    ensures
        (final(rt)@, r) == old(rt)@.arr_grow(a.0, inc),
{
    proof {
        reveal(State::arr_grow);
    }
    let n: u64 = len(rt, a) as u64 + inc as u64;
    if n > u32::MAX as u64 {
        return Err(
            errors::error_exception(
                rt,
                "invalid Array size: too large for system address width",
            ),
        );
    }
    let needed: u64 = offset_of(rt, a) as u64 + n;
    let have: u64 = memory::len(rt, mem_of(rt, a)) as u64;
    if needed > have {
        let mut cap: u64 = if have < 4 {
            4
        } else if have < 48 {
            have * 3 / 2
        } else {
            have * 6 / 5
        };
        if cap < needed {
            cap = needed;
        }
        if cap > u32::MAX as u64 {
            return Err(errors::error_exception(rt, "invalid Array size: too large"));
        }
        match move_to(rt, a, cap as u32) {
            Ok(_) => (),
            Err(e) => {
                return Err(e);
            },
        }
    }
    rt.set_word(a.0, 8, n as u32);
    Ok(())
}

/// Drops the last `dec` elements of the array `a`.
pub fn del_end(rt: &mut Runtime, a: Value, dec: u32) -> (r: Result<(), Value>)
    ensures
        (final(rt)@, r) == old(rt)@.arr_shrink(a.0, dec),
{
    proof {
        reveal(State::arr_shrink);
    }
    let n0: u32 = len(rt, a);
    if n0 < dec {
        return Err(errors::bounds_error(rt, a, 0));
    }
    let n: u32 = n0 - dec;
    rt.set_word(a.0, 8, n);
    let m: Value = mem_of(rt, a);
    let from: u32 = add_clipped(offset_of(rt, a), n);
    let to: u32 = add_clipped(from, dec);
    zero_range(rt, m, from, to);
    Ok(())
}

/// Appends `v` to the array `a`.
pub fn push(rt: &mut Runtime, a: Value, v: Value) -> (r: Result<(), Value>)
    ensures
        (final(rt)@, r) == old(rt)@.arr_push(a.0, v.0),
{
    proof {
        reveal(State::arr_push);
    }
    let roots: Vec<u32> = vec![a.0, v.0];
    assert(roots@ =~= seq![a.0, v.0]);
    rt.push_roots(&roots);
    match grow_end(rt, a, 1) {
        Err(e) => {
            rt.pop_roots(2);
            Err(e)
        },
        Ok(_) => {
            let n: u32 = len(rt, a);
            let i: u32 = if n > 0 {
                n - 1
            } else {
                0
            };
            let r: Result<(), Value> = aset(rt, a, i, v);
            rt.pop_roots(2);
            r
        },
    }
}

/// A full buffer grows to at least what is needed and, from four elements on, by at
/// least a fifth, rounded down.
pub proof fn law_growth(n: int, needed: int)
    requires
        0 <= n < needed,
    ensures
        next_capacity(n, needed) >= needed,
        next_capacity(n, needed) >= 4,
        n >= 4 ==> next_capacity(n, needed) >= n + n / 5,
{
}

} // verus!
