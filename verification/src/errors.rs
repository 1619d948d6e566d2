//! Exception values and the stack of exceptions being handled.

use vstd::prelude::*;
use crate::access;
use crate::bytes::{push_bytes, push_text, signed_decimal, signed_decimal_text, text, utf8};
use crate::id;
use crate::object::{alloc_object, get_ref, set_ref, type_of};
use crate::region::NULL;
use crate::state::{Runtime, State, Value};
use crate::symbol;
use crate::value::{box_int, unbox_int};

verus! {

impl State {
    /// The current exception, or `nothing` where none is being handled.
    pub open spec fn exc_current(self) -> u32 {
        if self.exc.len() > 0 {
            self.exc.last()
        } else {
            self.instance_of(self.builtin(id::NOTHING))
        }
    }

    /// The state with all but the `n` outermost exceptions forgotten.
    pub open spec fn exc_restore(self, n: int) -> State {
        if 0 <= n <= self.exc.len() {
            State { exc: self.exc.take(n), ..self }
        } else {
            self
        }
    }

    /// The sole instance of the core type `k`.
    pub open spec fn singleton(self, k: u32) -> u32 {
        self.instance_of(self.builtin(k))
    }

    /// A bounds error for the container `a` and the index `i`; the out-of-memory
    /// exception if it cannot be made.
    #[verifier::opaque]
    pub open spec fn bounds_error(self, a: u32, i: i64) -> (State, u32) {
        let (s1, boxed) = self.push_root(a).box_int(i);
        let (s2, e) = s1.push_root(boxed).alloc_object(s1.builtin(id::BOUNDSERROR), 8);
        let s3 = s2.pop_roots(2);
        if e == NULL {
            (s3, s3.singleton(id::OUTOFMEMORYERROR))
        } else {
            (s3.set_ref(e, 0, a).set_ref(e, 4, boxed), e)
        }
    }

    /// An error with the given message; the out-of-memory exception if it cannot be
    /// made.
    #[verifier::opaque]
    pub open spec fn error_exception(self, msg: Seq<u8>) -> (State, u32) {
        let (s1, sym) = self.intern(self.builtin(id::SYMBOL), msg);
        let (s2, e) = s1.push_root(sym).alloc_object(s1.builtin(id::ERROREXCEPTION), 4);
        let s3 = s2.pop_roots(1);
        if e == NULL {
            (s3, s3.singleton(id::OUTOFMEMORYERROR))
        } else {
            (s3.set_ref(e, 0, sym), e)
        }
    }

    /// The text of an exception for the host.
    pub open spec fn exception_text(self, exc: u32) -> Seq<u8> {
        let t = self.tag(exc);
        let name = self.sym_text(self.type_sym(t));
        let i = self.word(exc, 4);
        if t == self.builtin(id::ERROREXCEPTION) {
            name + utf8(": ") + self.sym_text(self.word(exc, 0))
        } else if t == self.builtin(id::BOUNDSERROR) && i != NULL && self.tag(i) == self.builtin(
            id::INT64,
        ) {
            name + utf8(": attempt to access at index [") + signed_decimal(
                self.unbox_int(i) as int,
            ) + utf8("]")
        } else {
            name
        }
    }
}

/// Records that the exception `v` is being handled.
pub fn exc_push(rt: &mut Runtime, v: Value)
    ensures
        final(rt)@ == (State { exc: old(rt)@.exc.push(v.0), ..old(rt)@ }),
{
    rt.exc.push(v.0);
}

/// The current exception.
pub fn exc_current(rt: &Runtime) -> (r: Value)
    ensures
        r.0 == rt@.exc_current(),
{
    let n: usize = rt.exc.len();
    if n > 0 {
        Value(rt.exc[n - 1])
    } else {
        Value(access::nothing_instance(rt))
    }
}

/// The number of exceptions being handled.
pub fn exc_state(rt: &Runtime) -> (r: usize)
    ensures
        r == rt@.exc.len(),
{
    rt.exc.len()
}

/// Forgets all but the `state` outermost exceptions.
pub fn exc_restore(rt: &mut Runtime, state: usize)
    ensures
        final(rt)@ == old(rt)@.exc_restore(state as int),
{
    if state <= rt.exc.len() {
        rt.exc.truncate(state);
    }
}

/// Forgets all exceptions.
pub fn exc_reset(rt: &mut Runtime)
    ensures
        final(rt)@ == (State { exc: Seq::empty(), ..old(rt)@ }),
{
    rt.exc.clear();
}

/// The exceptions being handled.
pub fn each_exception(rt: &Runtime) -> (r: Vec<u32>)
    ensures
        r@ == rt@.exc,
{
    crate::gc::copy_words(&rt.exc)
}

/// The sole instance of the core type `k`.
fn singleton(rt: &Runtime, k: u32) -> (r: Value)
    ensures
        r.0 == rt@.singleton(k),
{
    Value(access::instance_of(rt, access::builtin(rt, k)))
}

/// The exception of a division by zero.
pub fn divide_error(rt: &Runtime) -> (r: Value)
    ensures
        r.0 == rt@.singleton(id::DIVIDEERROR),
{
    singleton(rt, id::DIVIDEERROR)
}

/// The exception of a read of an unset reference.
pub fn undef_ref_error(rt: &Runtime) -> (r: Value)
    ensures
        r.0 == rt@.singleton(id::UNDEFREFERROR),
{
    singleton(rt, id::UNDEFREFERROR)
}

/// The exception of an exhausted heap.
pub fn out_of_memory(rt: &Runtime) -> (r: Value)
    ensures
        r.0 == rt@.singleton(id::OUTOFMEMORYERROR),
{
    singleton(rt, id::OUTOFMEMORYERROR)
}

/// A bounds error for the container `a` and the index `i`, which counts from one.
pub fn bounds_error(rt: &mut Runtime, a: Value, i: i64) -> (r: Value)
    ensures
        (final(rt)@, r.0) == old(rt)@.bounds_error(a.0, i),
{
    proof {
        reveal(State::bounds_error);
    }
    rt.push_root(a.0);
    let boxed: Value = box_int(rt, i);
    let t: u32 = access::builtin(rt, id::BOUNDSERROR);
    rt.push_root(boxed.0);
    let e: Value = alloc_object(rt, t, 8);
    rt.pop_roots(2);
    if e.is_null() {
        return out_of_memory(rt);
    }
    set_ref(rt, e, 0, a);
    set_ref(rt, e, 4, boxed);
    e
}

/// An error with the given message.
pub fn error_exception(rt: &mut Runtime, msg: &str) -> (r: Value)
    ensures
        (final(rt)@, r.0) == old(rt)@.error_exception(utf8(msg)),
{
    wrap_msg(rt, text(msg))
}

/// An error with the given message.
pub fn wrap_msg(rt: &mut Runtime, msg: Vec<u8>) -> (r: Value)
    ensures
        (final(rt)@, r.0) == old(rt)@.error_exception(msg@),
{
    proof {
        reveal(State::error_exception);
    }
    let st: u32 = access::builtin(rt, id::SYMBOL);
    let sym: u32 = symbol::intern_bytes(rt, st, msg.as_slice());
    let t: u32 = access::builtin(rt, id::ERROREXCEPTION);
    rt.push_root(sym);
    let e: Value = alloc_object(rt, t, 4);
    rt.pop_roots(1);
    if e.is_null() {
        return out_of_memory(rt);
    }
    set_ref(rt, e, 0, Value(sym));
    e
}

/// The text of an exception for the host.
pub fn format(rt: &Runtime, exc: Value) -> (r: Vec<u8>)
    ensures
        r@ == rt@.exception_text(exc.0),
{
    let t: u32 = type_of(rt, exc);
    let mut name: Vec<u8> = symbol::as_str(rt, access::type_sym(rt, t));
    if t == access::builtin(rt, id::ERROREXCEPTION) {
        let msg: Value = get_ref(rt, exc, 0);
        push_text(&mut name, ": ");
        let m: Vec<u8> = symbol::as_str(rt, msg.0);
        push_bytes(&mut name, m.as_slice());
        return name;
    }
    if t == access::builtin(rt, id::BOUNDSERROR) {
        let i: Value = get_ref(rt, exc, 4);
        if !i.is_null() && type_of(rt, i) == access::builtin(rt, id::INT64) {
            push_text(&mut name, ": attempt to access at index [");
            let d: Vec<u8> = signed_decimal_text(unbox_int(rt, i));
            push_bytes(&mut name, d.as_slice());
            push_text(&mut name, "]");
            return name;
        }
    }
    name
}

/// Leaving a handler gives back the stack as it was when the handler was entered.
pub proof fn law_restore_after_push(s: State, v: u32)
    ensures
        ({
            let pushed = State { exc: s.exc.push(v), ..s };
            &&& pushed.exc_current() == v
            &&& pushed.exc_restore(s.exc.len() as int) == s
        }),
{
    let pushed = State { exc: s.exc.push(v), ..s };
    assert(pushed.exc_restore(s.exc.len() as int) =~= s);
}

} // verus!
