//! The tagged-value object model.
//!
//! Every object carries the offset of its type and two collector bits. A
//! [`Value`] is the offset of the object's payload.

use vstd::prelude::*;
use crate::access::tag_of;
use crate::bytes::{zero_bytes, zeros};
use crate::gc;
use crate::gc::past_header;
use crate::region::{align_up, NULL};
use crate::state::{Obj, ObjV, Runtime, State, Value};

verus! {

impl State {
    /// A slot for `total` bytes: from the free lists, else after a quick
    /// collection, else after a full one.
    #[verifier::opaque]
    pub open spec fn obtain_chunk(self, total: int) -> (State, u32) {
        let (s1, h1) = self.alloc_chunk(total);
        if h1 != NULL || s1.builtins is None {
            (s1, h1)
        } else {
            let (s2, h2) = s1.collect(false).alloc_chunk(total);
            if h2 != NULL {
                (s2, h2)
            } else {
                s2.collect(true).alloc_chunk(total)
            }
        }
    }

    /// A fresh object of type `t` with `size` zero bytes, or the null reference
    /// when the heap is exhausted.
    #[verifier::opaque]
    pub open spec fn alloc_object(self, t: u32, size: int) -> (State, u32) {
        let (s, h) = self.maybe_collect().obtain_chunk(8 + align_up(size));
        let v = past_header(h);
        if h == NULL || !s.has_slot(v) || v == NULL {
            (s, NULL)
        } else {
            (
                s.put(
                    v,
                    Some(
                        ObjV {
                            tag: (t - t % 4) as u32,
                            marked: false,
                            old: false,
                            data: zeros(size as nat),
                        },
                    ),
                ),
                v,
            )
        }
    }

    /// The two collector bits of the object at `v` as a number: one for the mark
    /// bit, two for the generation bit.
    pub open spec fn gc_bits(self, v: u32) -> u32 {
        (if self.is_marked(v) {
            1u32
        } else {
            0u32
        } + if self.is_old(v) {
            2u32
        } else {
            0u32
        }) as u32
    }

    /// The effect of storing the reference `r` at byte offset `i` of the object `v`.
    pub open spec fn set_ref(self, v: u32, i: int, r: u32) -> State {
        self.write_barrier(v, r).with_word(v, i, r)
    }
}

/// The type of `v`, as the offset of its type object.
pub fn type_of(rt: &Runtime, v: Value) -> (r: u32)
    ensures
        r == rt@.tag(v.0),
{
    tag_of(rt, v.0)
}

/// Points `v` at another type; its collector bits stay.
pub fn set_type(rt: &mut Runtime, v: Value, type_off: u32)
    ensures
        final(rt)@ == old(rt)@.with_tag(v.0, type_off),
{
    rt.set_tag(v.0, type_off);
}

/// The collector bits of `v`.
pub fn gc_bits(rt: &Runtime, v: Value) -> (r: u32)
    ensures
        r == rt@.gc_bits(v.0),
{
    match rt.obj(v.0) {
        Some(o) => {
            let m: u32 = if o.marked {
                1
            } else {
                0
            };
            let n: u32 = if o.old {
                2
            } else {
                0
            };
            m + n
        },
        None => 0,
    }
}

/// Sets the collector bits of `v` from the low two bits of `bits`.
pub fn set_gc_bits(rt: &mut Runtime, v: Value, bits: u32)
    ensures
        final(rt)@ == old(rt)@.with_bits(v.0, bits % 2 == 1, (bits / 2) % 2 == 1),
{
    rt.set_bits(v.0, bits % 2 == 1, (bits / 2) % 2 == 1);
}

/// A slot for `total` bytes, collecting under pressure.
fn obtain_chunk(rt: &mut Runtime, total: u64) -> (r: u32)
    requires
        total <= 0xffff_ffff_ffff_0000,
    ensures
        (final(rt)@, r) == old(rt)@.obtain_chunk(total as int),
{
    proof {
        reveal(State::obtain_chunk);
    }
    let h1: u32 = gc::alloc_chunk(rt, total);
    if h1 != NULL || rt.builtins.is_none() {
        return h1;
    }
    gc::collect(rt);
    let h2: u32 = gc::alloc_chunk(rt, total);
    if h2 != NULL {
        return h2;
    }
    gc::collect_full(rt);
    gc::alloc_chunk(rt, total)
}

/// Allocates an object of type `type_off` with `size` bytes of zeroed payload, or
/// returns the null reference if the heap is exhausted. A collection may run
/// first.
pub fn alloc_object(rt: &mut Runtime, type_off: u32, size: u32) -> (r: Value)
    ensures
        (final(rt)@, r.0) == old(rt)@.alloc_object(type_off, size as int),
{
    proof {
        reveal(State::alloc_object);
    }
    gc::maybe_collect(rt);
    let total: u64 = 8 + (size as u64 + 7) / 8 * 8;
    let h: u32 = obtain_chunk(rt, total);
    let v: u32 = if h > 0xffff_fff7 {
        0
    } else {
        h + 8
    };
    if h == NULL || v == NULL || v % 8 != 0 || (v / 8) as usize >= rt.objs.len() {
        return Value(NULL);
    }
    let o: Obj = Obj {
        tag: type_off - type_off % 4,
        marked: false,
        old: false,
        data: zero_bytes(size as usize),
    };
    rt.put(v, Some(o));
    Value(v)
}

/// Reads the reference at byte offset `offset` of `v`.
pub fn get_ref(rt: &Runtime, v: Value, offset: u32) -> (r: Value)
    ensures
        r.0 == rt@.word(v.0, offset as int),
{
    Value(rt.word(v.0, offset as u64))
}

/// Writes the reference at byte offset `offset` of `v` through the write barrier.
pub fn set_ref(rt: &mut Runtime, v: Value, offset: u32, r: Value)
    ensures
        final(rt)@ == old(rt)@.set_ref(v.0, offset as int, r.0),
{
    gc::write_barrier(rt, v, r);
    rt.set_word(v.0, offset as u64, r.0);
}

/// An allocated object has the requested type, is young and unmarked, and its
/// payload is zero.
pub proof fn law_alloc_object(s: State, t: u32, size: int)
    requires
        0 <= size,
    ensures
        ({
            let (s1, v) = s.alloc_object(t, size);
            v != NULL ==> s1.obj(v) == Some(
                ObjV {
                    tag: (t - t % 4) as u32,
                    marked: false,
                    old: false,
                    data: zeros(size as nat),
                },
            )
        }),
{
    reveal(State::alloc_object);
}

pub proof fn lemma_alloc_chunk_keeps(s: State, total: int)
    ensures
        ({
            let e = s.alloc_chunk(total).0;
            e == (State {
                region: e.region,
                pools: e.pools,
                pages: e.pages,
                free_pages: e.free_pages,
                stats: e.stats,
                ..s
            })
        }),
{
    reveal(State::alloc_chunk);
}

/// An allocation changes blocks, pages, the region and the collector's own state
/// alone.
pub proof fn lemma_alloc_object_keeps(s: State, t: u32, size: int)
    ensures
        ({
            let e = s.alloc_object(t, size).0;
            e == (State {
                objs: e.objs,
                region: e.region,
                pools: e.pools,
                pages: e.pages,
                free_pages: e.free_pages,
                remembered: e.remembered,
                stats: e.stats,
                ..s
            })
        }),
{
    reveal(State::alloc_object);
    reveal(State::obtain_chunk);
    reveal(State::maybe_collect);
    let total = 8 + align_up(size);
    crate::survival::lemma_collect_frame(s, s.stats.next_full);
    let a = s.maybe_collect();
    lemma_alloc_chunk_keeps(a, total);
    let b = a.alloc_chunk(total).0;
    crate::survival::lemma_collect_frame(b, false);
    let c = b.collect(false);
    lemma_alloc_chunk_keeps(c, total);
    let d = c.alloc_chunk(total).0;
    crate::survival::lemma_collect_frame(d, true);
    let f = d.collect(true);
    lemma_alloc_chunk_keeps(f, total);
}

/// A stored reference is read back.
pub proof fn law_get_ref_after_set_ref(s: State, v: u32, i: int, r: u32)
    requires
        0 <= i,
        i + 4 <= s.data(v).len(),
    ensures
        s.set_ref(v, i, r).word(v, i) == r,
{
    let s1 = s.write_barrier(v, r);
    assert(s1.data(v) == s.data(v));
    crate::bytes::lemma_word_read_write(s1.data(v), i, r);
}

} // verus!
