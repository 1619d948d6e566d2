//! Boxing and unboxing of primitive values.
//!
//! Double-precision and single-precision values are held as their bits.

use vstd::prelude::*;
use crate::access;
use crate::id;
use crate::object::alloc_object;
use crate::region::NULL;
use crate::state::{Runtime, State, Value};

verus! {

/// The low word of a 64-bit pattern.
pub open spec fn low_word(x: u64) -> u32 {
    (x % 0x1_0000_0000) as u32
}

/// The high word of a 64-bit pattern.
pub open spec fn high_word(x: u64) -> u32 {
    (x / 0x1_0000_0000) as u32
}

/// The 64-bit pattern with the given words.
pub open spec fn join_words(lo: u32, hi: u32) -> u64 {
    (lo + 0x1_0000_0000 * hi) as u64
}

/// The unsigned pattern of a signed 64-bit value.
pub open spec fn bits_of(x: i64) -> u64 {
    if x < 0 {
        (x + 0x1_0000_0000_0000_0000) as u64
    } else {
        x as u64
    }
}

/// The signed value of an unsigned 64-bit pattern.
pub open spec fn signed_of(x: u64) -> i64 {
    if x > i64::MAX {
        (x - 0x1_0000_0000_0000_0000) as i64
    } else {
        x as i64
    }
}

/// Computes the unsigned pattern of a signed value.
pub fn to_bits(x: i64) -> (r: u64)
    ensures
        r == bits_of(x),
{
    if x < 0 {
        (x as i128 + 0x1_0000_0000_0000_0000) as u64
    } else {
        x as u64
    }
}

/// Computes the signed value of an unsigned pattern.
pub fn from_bits(x: u64) -> (r: i64)
    ensures
        r == signed_of(x),
{
    if x > 0x7fff_ffff_ffff_ffff {
        (x as i128 - 0x1_0000_0000_0000_0000) as i64
    } else {
        x as i64
    }
}

impl State {
    /// The 64-bit pattern at the start of the payload of `v`.
    pub open spec fn word64(self, v: u32) -> u64 {
        join_words(self.word(v, 0), self.word(v, 4))
    }

    /// The state with a 64-bit pattern at the start of the payload of `v`.
    pub open spec fn with_word64(self, v: u32, x: u64) -> State {
        self.with_word(v, 0, low_word(x)).with_word(v, 4, high_word(x))
    }

    /// A box of the 64-bit core type `i` with the given pattern.
    #[verifier::opaque]
    pub open spec fn box64(self, i: u32, x: u64) -> (State, u32) {
        let t = self.builtin(i);
        let (s, v) = self.alloc_object(t, self.size_of(t) as int);
        if v == NULL {
            (s, NULL)
        } else {
            (s.with_word64(v, x), v)
        }
    }

    /// A box of the `Int64` value `x`.
    pub open spec fn box_int(self, x: i64) -> (State, u32) {
        self.box64(id::INT64, bits_of(x))
    }

    /// The `Int64` payload of `v`.
    pub open spec fn unbox_int(self, v: u32) -> i64 {
        signed_of(self.word64(v))
    }

    /// A box of the core type `i` whose low `n` payload bytes are those of `x`.
    #[verifier::opaque]
    pub open spec fn box_small(self, i: u32, n: int, x: u32) -> (State, u32) {
        let t = self.builtin(i);
        let (s, v) = self.alloc_object(t, self.size_of(t) as int);
        if v == NULL {
            (s, NULL)
        } else if n == 1 {
            (s.with_byte(v, 0, (x % 0x100) as u8), v)
        } else if n == 2 {
            (
                s.with_byte(v, 0, (x % 0x100) as u8).with_byte(v, 1, ((x / 0x100) % 0x100) as u8),
                v,
            )
        } else {
            (s.with_word(v, 0, x), v)
        }
    }

    /// The shared box of a truth value.
    pub open spec fn box_bool(self, b: bool) -> u32 {
        match self.builtins {
            Some(x) => if b {
                x.true_instance
            } else {
                x.false_instance
            },
            None => NULL,
        }
    }

    /// The truth value in `v`.
    pub open spec fn unbox_bool(self, v: u32) -> bool {
        self.byte(v, 0) != 0
    }
}

/// Boxes a 64-bit pattern as the core type `i`.
fn box64(rt: &mut Runtime, i: u32, x: u64) -> (r: Value)
    ensures
        (final(rt)@, r.0) == old(rt)@.box64(i, x),
{
    proof {
        reveal(State::box64);
    }
    let t: u32 = access::builtin(rt, i);
    let n: u32 = access::size_of(rt, t);
    let v: Value = alloc_object(rt, t, n);
    if v.0 == NULL {
        return Value(NULL);
    }
    rt.set_word(v.0, 0, (x % 0x1_0000_0000) as u32);
    rt.set_word(v.0, 4, (x / 0x1_0000_0000) as u32);
    v
}

/// Reads the 64-bit pattern in `v`.
fn unbox64(rt: &Runtime, v: Value) -> (r: u64)
    ensures
        r == rt@.word64(v.0),
{
    rt.word(v.0, 0) as u64 + 0x1_0000_0000 * (rt.word(v.0, 4) as u64)
}

/// Boxes an `Int64`; the null reference if the heap is exhausted.
pub fn box_int(rt: &mut Runtime, x: i64) -> (r: Value)
    ensures
        (final(rt)@, r.0) == old(rt)@.box_int(x),
{
    box64(rt, id::INT64, to_bits(x))
}

/// The `Int64` in `v`.
pub fn unbox_int(rt: &Runtime, v: Value) -> (r: i64)
    ensures
        r == rt@.unbox_int(v.0),
{
    from_bits(unbox64(rt, v))
}

/// Boxes a `Float64` given by its bits.
pub fn box_float64(rt: &mut Runtime, bits: u64) -> (r: Value)
    ensures
        (final(rt)@, r.0) == old(rt)@.box64(id::FLOAT64, bits),
{
    box64(rt, id::FLOAT64, bits)
}

/// The bits of the `Float64` in `v`.
pub fn unbox_float64(rt: &Runtime, v: Value) -> (r: u64)
    ensures
        r == rt@.word64(v.0),
{
    unbox64(rt, v)
}

/// Boxes a `UInt64`.
pub fn box_uint64(rt: &mut Runtime, x: u64) -> (r: Value)
    ensures
        (final(rt)@, r.0) == old(rt)@.box64(id::UINT64, x),
{
    box64(rt, id::UINT64, x)
}

/// The `UInt64` in `v`.
pub fn unbox_uint64(rt: &Runtime, v: Value) -> (r: u64)
    ensures
        r == rt@.word64(v.0),
{
    unbox64(rt, v)
}

/// Boxes a value of `n` bytes, where `n` is one, two or four.
fn box_small(rt: &mut Runtime, i: u32, n: u32, x: u32) -> (r: Value)
    ensures
        (final(rt)@, r.0) == old(rt)@.box_small(i, n as int, x),
{
    proof {
        reveal(State::box_small);
    }
    let t: u32 = access::builtin(rt, i);
    let size: u32 = access::size_of(rt, t);
    let v: Value = alloc_object(rt, t, size);
    if v.0 == NULL {
        return Value(NULL);
    }
    if n == 1 {
        rt.set_byte(v.0, 0, (x % 0x100) as u8);
    } else if n == 2 {
        rt.set_byte(v.0, 0, (x % 0x100) as u8);
        rt.set_byte(v.0, 1, ((x / 0x100) % 0x100) as u8);
    } else {
        rt.set_word(v.0, 0, x);
    }
    v
}

/// Boxes an `Int8`.
pub fn box_int8(rt: &mut Runtime, x: i8) -> (r: Value)
    ensures
        (final(rt)@, r.0) == old(rt)@.box_small(
            id::INT8,
            1,
            if x < 0 {
                (x + 0x100) as u32
            } else {
                x as u32
            },
        ),
{
    let y: u32 = if x < 0 {
        (x as i32 + 0x100) as u32
    } else {
        x as u32
    };
    box_small(rt, id::INT8, 1, y)
}

/// The `Int8` in `v`.
pub fn unbox_int8(rt: &Runtime, v: Value) -> (r: i8)
    ensures
        r == (if rt@.byte(v.0, 0) >= 0x80 {
            rt@.byte(v.0, 0) - 0x100
        } else {
            rt@.byte(v.0, 0) as int
        }),
{
    let b: u8 = rt.byte(v.0, 0);
    if b >= 0x80 {
        (b as i32 - 0x100) as i8
    } else {
        b as i8
    }
}

/// Boxes an `Int16`.
pub fn box_int16(rt: &mut Runtime, x: i16) -> (r: Value)
    ensures
        (final(rt)@, r.0) == old(rt)@.box_small(
            id::INT16,
            2,
            if x < 0 {
                (x + 0x1_0000) as u32
            } else {
                x as u32
            },
        ),
{
    let y: u32 = if x < 0 {
        (x as i32 + 0x1_0000) as u32
    } else {
        x as u32
    };
    box_small(rt, id::INT16, 2, y)
}

impl State {
    /// The 16-bit pattern at the start of the payload of `v`.
    pub open spec fn half(self, v: u32) -> int {
        self.byte(v, 0) + 0x100 * self.byte(v, 1)
    }
}

/// The `Int16` in `v`.
pub fn unbox_int16(rt: &Runtime, v: Value) -> (r: i16)
    ensures
        r == (if rt@.half(v.0) >= 0x8000 {
            rt@.half(v.0) - 0x1_0000
        } else {
            rt@.half(v.0)
        }),
{
    let h: i32 = rt.byte(v.0, 0) as i32 + 0x100 * (rt.byte(v.0, 1) as i32);
    if h >= 0x8000 {
        (h - 0x1_0000) as i16
    } else {
        h as i16
    }
}

/// Boxes an `Int32`.
pub fn box_int32(rt: &mut Runtime, x: i32) -> (r: Value)
    ensures
        (final(rt)@, r.0) == old(rt)@.box_small(
            id::INT32,
            4,
            if x < 0 {
                (x + 0x1_0000_0000) as u32
            } else {
                x as u32
            },
        ),
{
    let y: u32 = if x < 0 {
        (x as i64 + 0x1_0000_0000) as u32
    } else {
        x as u32
    };
    box_small(rt, id::INT32, 4, y)
}

/// The `Int32` in `v`.
pub fn unbox_int32(rt: &Runtime, v: Value) -> (r: i32)
    ensures
        r == (if rt@.word(v.0, 0) >= 0x8000_0000 {
            rt@.word(v.0, 0) - 0x1_0000_0000
        } else {
            rt@.word(v.0, 0) as int
        }),
{
    let w: u32 = rt.word(v.0, 0);
    if w >= 0x8000_0000 {
        (w as i64 - 0x1_0000_0000) as i32
    } else {
        w as i32
    }
}

/// Boxes a `UInt8`.
pub fn box_uint8(rt: &mut Runtime, x: u8) -> (r: Value)
    ensures
        (final(rt)@, r.0) == old(rt)@.box_small(id::UINT8, 1, x as u32),
{
    box_small(rt, id::UINT8, 1, x as u32)
}

/// The `UInt8` in `v`.
pub fn unbox_uint8(rt: &Runtime, v: Value) -> (r: u8)
    ensures
        r == rt@.byte(v.0, 0),
{
    rt.byte(v.0, 0)
}

/// Boxes a `UInt16`.
pub fn box_uint16(rt: &mut Runtime, x: u16) -> (r: Value)
    ensures
        (final(rt)@, r.0) == old(rt)@.box_small(id::UINT16, 2, x as u32),
{
    box_small(rt, id::UINT16, 2, x as u32)
}

/// The `UInt16` in `v`.
pub fn unbox_uint16(rt: &Runtime, v: Value) -> (r: u16)
    ensures
        r == rt@.half(v.0),
{
    (rt.byte(v.0, 0) as u32 + 0x100 * (rt.byte(v.0, 1) as u32)) as u16
}

/// Boxes a `UInt32`.
pub fn box_uint32(rt: &mut Runtime, x: u32) -> (r: Value)
    ensures
        (final(rt)@, r.0) == old(rt)@.box_small(id::UINT32, 4, x),
{
    box_small(rt, id::UINT32, 4, x)
}

/// The `UInt32` in `v`.
pub fn unbox_uint32(rt: &Runtime, v: Value) -> (r: u32)
    ensures
        r == rt@.word(v.0, 0),
{
    rt.word(v.0, 0)
}

/// Boxes a `Float32` given by its bits.
pub fn box_float32(rt: &mut Runtime, bits: u32) -> (r: Value)
    ensures
        (final(rt)@, r.0) == old(rt)@.box_small(id::FLOAT32, 4, bits),
{
    box_small(rt, id::FLOAT32, 4, bits)
}

/// The bits of the `Float32` in `v`.
pub fn unbox_float32(rt: &Runtime, v: Value) -> (r: u32)
    ensures
        r == rt@.word(v.0, 0),
{
    rt.word(v.0, 0)
}

/// Boxes a `Char` given by its code.
pub fn box_char(rt: &mut Runtime, x: u32) -> (r: Value)
    ensures
        (final(rt)@, r.0) == old(rt)@.box_small(id::CHAR, 4, x),
{
    box_small(rt, id::CHAR, 4, x)
}

/// The code of the `Char` in `v`.
pub fn unbox_char(rt: &Runtime, v: Value) -> (r: u32)
    ensures
        r == rt@.word(v.0, 0),
{
    rt.word(v.0, 0)
}

/// The shared box of a truth value: never a fresh allocation.
pub fn box_bool(rt: &Runtime, b: bool) -> (r: Value)
    ensures
        r.0 == rt@.box_bool(b),
{
    match &rt.builtins {
        Some(x) => {
            if b {
                Value(x.true_instance)
            } else {
                Value(x.false_instance)
            }
        },
        None => Value(NULL),
    }
}

/// The truth value in `v`.
pub fn unbox_bool(rt: &Runtime, v: Value) -> (r: bool)
    ensures
        r == rt@.unbox_bool(v.0),
{
    rt.byte(v.0, 0) != 0
}

/// The sole value of `Nothing`.
pub fn nothing(rt: &Runtime) -> (r: Value)
    ensures
        r.0 == rt@.instance_of(rt@.builtin(id::NOTHING)),
{
    Value(access::nothing_instance(rt))
}

proof fn lemma_with_word64(s: State, v: u32, x: u64)
    requires
        s.data(v).len() >= 8,
    ensures
        s.with_word64(v, x).word64(v) == x,
        s.with_word64(v, x).tag(v) == s.tag(v),
{
    let s1 = s.with_word(v, 0, low_word(x));
    crate::bytes::lemma_word_read_write(s.data(v), 0, low_word(x));
    crate::bytes::lemma_word_read_write(s1.data(v), 4, high_word(x));
    crate::bytes::lemma_word_read_other(s1.data(v), 4, 0, high_word(x));
}

/// A boxed integer carries the type `Int64` and reads back as itself.
pub proof fn law_unbox_after_box(s: State, x: i64)
    requires
        s.size_of(s.builtin(id::INT64)) == 8,
        s.builtin(id::INT64) % 4 == 0,
    ensures
        ({
            let (s1, v) = s.box_int(x);
            v != NULL ==> s1.unbox_int(v) == x && s1.tag(v) == s.builtin(id::INT64)
        }),
{
    reveal(State::box64);
    let t = s.builtin(id::INT64);
    crate::object::law_alloc_object(s, t, 8);
    let (s1, v) = s.alloc_object(t, 8);
    if v != NULL {
        lemma_with_word64(s1, v, bits_of(x));
    }
}

/// A boxed 64-bit pattern reads back as itself, bit for bit.
pub proof fn law_unbox_after_box_bits(s: State, i: u32, x: u64)
    requires
        s.size_of(s.builtin(i)) == 8,
    ensures
        ({
            let (s1, v) = s.box64(i, x);
            v != NULL ==> s1.word64(v) == x
        }),
{
    reveal(State::box64);
    let t = s.builtin(i);
    crate::object::law_alloc_object(s, t, 8);
    let (s1, v) = s.alloc_object(t, 8);
    if v != NULL {
        lemma_with_word64(s1, v, x);
    }
}

} // verus!
