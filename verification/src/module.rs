//! Modules and their global bindings.
//!
//! A module's payload is its name, its parent and its table of bindings, an array of
//! alternating names and values.

use vstd::prelude::*;
use crate::access;
use crate::array;
use crate::array::{alloc_1d, aref, aset};
use crate::bytes::utf8;
use crate::errors;
use crate::id;
use crate::object::{alloc_object, get_ref};
use crate::region::NULL;
use crate::state::{Runtime, State, Value};
use crate::symbol;

verus! {

/// The payload size of a module.
pub const BODY: u32 = 12;

impl State {
    /// A module without bindings; without a parent it is its own.
    #[verifier::opaque]
    pub open spec fn new_module(self, name: u32, parent: u32) -> (State, Result<Value, Value>) {
        match self.push_roots(seq![name, parent]).arr_alloc(self.builtin(id::ANY), 0) {
            (s1, Err(e)) => (s1.pop_roots(2), Err(e)),
            (s1, Ok(b)) => {
                let (s2, m) = s1.push_root(b.0).alloc_object(s1.builtin(id::MODULE), BODY as int);
                let s3 = s2.pop_roots(3);
                if m == NULL {
                    (s3, Err(Value(s3.singleton(id::OUTOFMEMORYERROR))))
                } else {
                    (
                        s3.with_word(m, 0, name).with_word(
                            m,
                            4,
                            if parent == NULL {
                                m
                            } else {
                                parent
                            },
                        ).with_word(m, 8, b.0),
                        Ok(Value(m)),
                    )
                }
            },
        }
    }

    /// The state with a fresh main module.
    pub open spec fn init_main(self) -> (State, Result<(), Value>) {
        let (s1, sym) = self.intern(self.builtin(id::SYMBOL), utf8("Main"));
        match s1.new_module(sym, NULL) {
            (s2, Ok(m)) => (State { main: m.0, ..s2 }, Ok(())),
            (s2, Err(e)) => (s2, Err(e)),
        }
    }

    /// The value bound to `sym` in the table `b`, from position `i` on.
    pub open spec fn global_from(self, b: u32, sym: u32, n: u32, i: int) -> (State, Option<Value>)
        decreases n - i,
    {
        if i < 0 || i + 1 >= n {
            (self, None)
        } else {
            match self.arr_get(b, i as u32) {
                (s, Err(_)) => (s, None),
                (s, Ok(k)) => if k.0 == sym {
                    match s.arr_get(b, (i + 1) as u32) {
                        (s1, Ok(v)) => (s1, Some(v)),
                        (s1, Err(_)) => (s1, None),
                    }
                } else {
                    s.global_from(b, sym, n, i + 2)
                },
            }
        }
    }

    /// The value bound to `sym` in the module `m`.
    pub open spec fn get_global(self, m: u32, sym: u32) -> (State, Option<Value>) {
        let b = self.word(m, 8);
        self.global_from(b, sym, self.arr_len(b), 0)
    }

    /// The position of the name `sym` in the table `b`, from position `i` on; the
    /// exception if a name cannot be read.
    pub open spec fn binding_from(
        self,
        b: u32,
        sym: u32,
        n: u32,
        i: int,
    ) -> (State, Result<Option<int>, Value>)
        decreases n + 1 - i,
    {
        if i < 0 || i >= n {
            (self, Ok(None))
        } else {
            match self.arr_get(b, i as u32) {
                (s, Err(e)) => (s, Err(e)),
                (s, Ok(k)) => if k.0 == sym {
                    (s, Ok(Some(i)))
                } else {
                    s.binding_from(b, sym, n, i + 2)
                },
            }
        }
    }

    /// Binds `sym` to `v` in the module `m`.
    #[verifier::opaque]
    pub open spec fn set_global(self, m: u32, sym: u32, v: u32) -> (State, Result<(), Value>) {
        let s0 = self.push_roots(seq![m, v]);
        let b = s0.word(m, 8);
        match s0.binding_from(b, sym, s0.arr_len(b), 0) {
            (s1, Err(e)) => (s1.pop_roots(2), Err(e)),
            (s1, Ok(Some(i))) => {
                let (s2, r) = s1.arr_set(b, clip_index(i + 1), v);
                (s2.pop_roots(2), r)
            },
            (s1, Ok(None)) => match s1.arr_push(b, sym) {
                (s2, Err(e)) => (s2.pop_roots(2), Err(e)),
                (s2, Ok(_)) => {
                    let (s3, r) = s2.arr_push(s2.word(m, 8), v);
                    (s3.pop_roots(2), r)
                },
            },
        }
    }
}

/// An index that may exceed the largest one.
pub open spec fn clip_index(i: int) -> u32 {
    if i > u32::MAX {
        u32::MAX
    } else {
        i as u32
    }
}

/// Makes a module named by the symbol `name_sym`.
pub fn new_module(rt: &mut Runtime, name_sym: u32, parent: u32) -> (r: Result<Value, Value>)
    ensures
        (final(rt)@, r) == old(rt)@.new_module(name_sym, parent),
{
    proof {
        reveal(State::new_module);
    }
    let roots: Vec<u32> = vec![name_sym, parent];
    assert(roots@ =~= seq![name_sym, parent]);
    let any: u32 = access::builtin(rt, id::ANY);
    rt.push_roots(&roots);
    match alloc_1d(rt, any, 0) {
        Err(e) => {
            rt.pop_roots(2);
            Err(e)
        },
        Ok(b) => {
            let t: u32 = access::builtin(rt, id::MODULE);
            rt.push_root(b.0);
            let m: Value = alloc_object(rt, t, BODY);
            rt.pop_roots(3);
            if m.is_null() {
                return Err(errors::out_of_memory(rt));
            }
            rt.set_word(m.0, 0, name_sym);
            rt.set_word(
                m.0,
                4,
                if parent == NULL {
                    m.0
                } else {
                    parent
                },
            );
            rt.set_word(m.0, 8, b.0);
            Ok(m)
        },
    }
}

/// Makes the main module.
pub fn init_main(rt: &mut Runtime) -> (r: Result<(), Value>)
    ensures
        (final(rt)@, r) == old(rt)@.init_main(),
{
    let st: u32 = access::builtin(rt, id::SYMBOL);
    let sym: u32 = symbol::intern(rt, st, "Main");
    match new_module(rt, sym, NULL) {
        Ok(m) => {
            rt.main = m.0;
            Ok(())
        },
        Err(e) => Err(e),
    }
}

/// The main module.
pub fn main_offset(rt: &Runtime) -> (r: u32)
    ensures
        r == rt@.main,
{
    rt.main
}

/// The table of bindings of the module `m`.
fn bindings_of(rt: &Runtime, m: Value) -> (r: Value)
    ensures
        r.0 == rt@.word(m.0, 8),
{
    get_ref(rt, m, 8)
}

/// The value bound to `sym` in the module `m`.
pub fn get_global(rt: &mut Runtime, m: Value, sym: u32) -> (r: Option<Value>)
    ensures
        (final(rt)@, r) == old(rt)@.get_global(m.0, sym),
{
    let b: Value = bindings_of(rt, m);
    let n: u32 = array::len(rt, b);
    let mut i: u32 = 0;
    while i < n && n - i > 1
        invariant
            i <= n,
            old(rt)@.get_global(m.0, sym) == rt@.global_from(b.0, sym, n, i as int),
        decreases n - i,
    {
        match aref(rt, b, i) {
            Err(_) => {
                return None;
            },
            Ok(k) => {
                if k.0 == sym {
                    return match aref(rt, b, i + 1) {
                        Ok(v) => Some(v),
                        Err(_) => None,
                    };
                }
            },
        }
        i = i + 2;
    }
    None
}

/// The position of the name `sym` in the table `b`.
fn find_binding(rt: &mut Runtime, b: Value, sym: u32) -> (r: Result<Option<u32>, Value>)
    ensures
        ({
            let (s, p) = old(rt)@.binding_from(b.0, sym, old(rt)@.arr_len(b.0), 0);
            &&& final(rt)@ == s
            &&& match r {
                Ok(Some(i)) => p == Ok::<Option<int>, Value>(Some(i as int)),
                Ok(None) => p == Ok::<Option<int>, Value>(None),
                Err(e) => p == Err::<Option<int>, Value>(e),
            }
        }),
{
    let n: u32 = array::len(rt, b);
    let mut i: u64 = 0;
    while i < n as u64
        invariant
            i <= n + 1,
            n == old(rt)@.arr_len(b.0),
            old(rt)@.binding_from(b.0, sym, n, 0) == rt@.binding_from(b.0, sym, n, i as int),
        decreases n + 1 - i,
    {
        match aref(rt, b, i as u32) {
            Err(e) => {
                return Err(e);
            },
            Ok(k) => {
                if k.0 == sym {
                    return Ok(Some(i as u32));
                }
            },
        }
        i = i + 2;
    }
    Ok(None)
}

/// Binds `sym` to `v` in the module `m`.
pub fn set_global(rt: &mut Runtime, m: Value, sym: u32, v: Value) -> (r: Result<(), Value>)
    ensures
        (final(rt)@, r) == old(rt)@.set_global(m.0, sym, v.0),
{
    proof {
        reveal(State::set_global);
    }
    let roots: Vec<u32> = vec![m.0, v.0];
    assert(roots@ =~= seq![m.0, v.0]);
    rt.push_roots(&roots);
    let b: Value = bindings_of(rt, m);
    match find_binding(rt, b, sym) {
        Err(e) => {
            rt.pop_roots(2);
            Err(e)
        },
        Ok(Some(i)) => {
            let k: u32 = if i == u32::MAX {
                i
            } else {
                i + 1
            };
            let r: Result<(), Value> = aset(rt, b, k, v);
            rt.pop_roots(2);
            r
        },
        Ok(None) => match array::push(rt, b, Value(sym)) {
            Err(e) => {
                rt.pop_roots(2);
                Err(e)
            },
            Ok(_) => {
                let b2: Value = bindings_of(rt, m);
                let r: Result<(), Value> = array::push(rt, b2, v);
                rt.pop_roots(2);
                r
            },
        },
    }
}

} // verus!
