//! The interpreter of lowered code.
//!
//! A program runs as an explicit stack of activations. [`eval`] and its variants run
//! it up to its end or its next pause; the host answers a pause with
//! [`resume_float`] or [`resume_compiled`] and goes on with [`run`]. The module
//! [`crate::interp_spec`] says what every statement does.

use std::rc::Rc;
use vstd::prelude::*;
use crate::access;
use crate::array;
use crate::bytes::{push_bytes, push_text, text};
use crate::builtins::run_native;
use crate::dispatch;
use crate::egal::egal;
use crate::errors;
use crate::gc::Frame;
use crate::id;
use crate::interp_spec::{
    after, ActV, Applied, FloatCall, FloatOp, Flow, MachineV, Num, Pending, Status, MAX_FRAME,
};
use crate::intrinsics::{
    add_int, and_int, ashr_int, checked_sdiv_int, checked_srem_int, eq_int, lshr_int, mul_int,
    or_int, shl_int, sle_int, slt_int, sub_int, xor_int,
};
use crate::ir::{share, Body, Builtin, FnKind, Op, Stmt};
use crate::module;
use crate::object::type_of;
use crate::region::NULL;
use crate::state::{Runtime, State, Value};
use crate::structs::{field_index, get_nth_field, new_struct, set_nth_field};
use crate::symbol;
use crate::types::{is_array, tuple_type};
use crate::value::{box_bool, box_float64, box_int, unbox_bool, unbox_float64, unbox_int};

verus! {

/// A body being run.
pub struct Activation {
    pub body: Rc<Body>,
    pub base: usize,
    pub ip: usize,
    pub handlers: Vec<usize>,
    pub pending: Option<Pending>,
    pub flush: Vec<(usize, u32)>,
}

impl View for Activation {
    type V = ActV;

    open spec fn view(&self) -> ActV {
        ActV {
            body: self.body,
            base: self.base,
            ip: self.ip,
            handlers: self.handlers@,
            pending: self.pending,
            flush: self.flush@,
        }
    }
}

/// A running program.
pub struct Machine {
    pub acts: Vec<Activation>,
    pub status: Status,
}

impl View for Machine {
    type V = MachineV;

    open spec fn view(&self) -> MachineV {
        MachineV { acts: self.acts@.map_values(|a: Activation| a@), status: self.status }
    }
}

/// The root at position `a + b`.
fn root_at(rt: &Runtime, a: usize, b: usize) -> (r: Value)
    ensures
        r.0 == rt@.root_at(a + b),
{
    if a <= rt.roots.len() && b < rt.roots.len() - a {
        Value(rt.roots[a + b])
    } else {
        Value(NULL)
    }
}

/// Sets the root at position `a + b`.
fn put(rt: &mut Runtime, a: usize, b: usize, v: Value)
    ensures
        final(rt)@ == old(rt)@.with_root(a + b, v.0),
{
    if a <= rt.roots.len() && b < rt.roots.len() - a {
        rt.set_root(a + b, v.0);
    }
}

/// The `n` values on the roots from `at + skip` on.
fn values_at(rt: &Runtime, at: usize, skip: usize, n: usize) -> (r: Vec<Value>)
    ensures
        r@ == rt@.values_at(at + skip, n as int),
{
    let mut r: Vec<Value> = Vec::new();
    let len: usize = rt.roots.len();
    let mut i: usize = 0;
    while i < n
        invariant
            i <= n,
            r.len() == i,
            len == rt.roots.len(),
            forall|k: int| 0 <= k < i ==> r@[k] == Value(rt@.root_at(at + skip + k)),
        decreases n - i,
    {
        let v: Value = if at <= len && skip <= len - at && i < len - at - skip {
            Value(rt.roots[at + skip + i])
        } else {
            Value(NULL)
        };
        r.push(v);
        i = i + 1;
    }
    assert(r@ =~= rt@.values_at(at + skip, n as int));
    r
}

/// The topmost `n` roots but the `first` ones.
fn top_values(rt: &Runtime, n: usize, first: usize) -> (r: Vec<Value>)
    ensures
        r@ == rt@.values_at(rt@.roots.len() - n + first, n - first),
{
    let mut r: Vec<Value> = Vec::new();
    let len: usize = rt.roots.len();
    let count: usize = if first < n {
        n - first
    } else {
        0
    };
    let mut i: usize = 0;
    while i < count
        invariant
            i <= count,
            count == if first < n {
                n - first
            } else {
                0
            },
            r.len() == i,
            len == rt.roots.len(),
            forall|k: int|
                0 <= k < i ==> r@[k] == Value(rt@.root_at(rt@.roots.len() - n + first + k)),
        decreases count - i,
    {
        let back: usize = count - i;
        let v: Value = if back <= len {
            Value(rt.roots[len - back])
        } else {
            Value(NULL)
        };
        r.push(v);
        i = i + 1;
    }
    assert(r@ =~= rt@.values_at(rt@.roots.len() - n + first, n - first));
    r
}

/// The result of statement `ip` of an activation.
fn put_result(rt: &mut Runtime, base: usize, nslots: usize, ip: usize, v: Value)
    ensures
        final(rt)@ == old(rt)@.with_root(base + nslots + ip, v.0),
{
    let len: usize = rt.roots.len();
    if base <= len && nslots <= len - base && ip < len - base - nslots {
        rt.set_root(base + nslots + ip, v.0);
    }
}

/// Stores the result of a statement, and in a slot, if any.
fn store(rt: &mut Runtime, base: usize, nslots: usize, ip: usize, slot: Option<usize>, v: Value)
    ensures
        final(rt)@ == old(rt)@.store(base as int, nslots as int, ip as int, slot, v),
{
    match slot {
        Some(k) => put(rt, base, k, v),
        None => (),
    }
    put_result(rt, base, nslots, ip, v);
}

/// Ends a statement with the outcome `r`.
fn settle(
    rt: &mut Runtime,
    base: usize,
    nslots: usize,
    ip: usize,
    slot: Option<usize>,
    r: Result<Value, Value>,
) -> (f: Flow)
    ensures
        (final(rt)@, f) == old(rt)@.settle(base as int, nslots as int, ip as int, slot, r),
{
    match r {
        Ok(v) => {
            store(rt, base, nslots, ip, slot, v);
            Flow::Next
        },
        Err(e) => Flow::Throw(e),
    }
}

/// Raises an error with the given message.
fn fail(rt: &mut Runtime, msg: Vec<u8>) -> (f: Flow)
    ensures
        (final(rt)@, f) == old(rt)@.fail(msg@),
{
    Flow::Throw(errors::wrap_msg(rt, msg))
}

/// Reads an operand.
fn read_op(rt: &mut Runtime, base: usize, nslots: usize, op: Op) -> (r: Result<Value, Value>)
    ensures
        (final(rt)@, r) == old(rt)@.read_op(base as int, nslots as int, op),
{
    match op {
        Op::Ssa(i) => {
            let len: usize = rt.roots.len();
            if base <= len && nslots <= len - base && i < len - base - nslots {
                Ok(Value(rt.roots[base + nslots + i]))
            } else {
                Ok(Value(NULL))
            }
        },
        Op::Slot(k) => Ok(root_at(rt, base, k)),
        Op::Int(c) => Ok(box_int(rt, c)),
        Op::Float(c) => Ok(box_float64(rt, c)),
        Op::Const(o) => Ok(Value(o)),
        Op::Global(sym) => {
            let main: Value = Value(module::main_offset(rt));
            match module::get_global(rt, main, sym) {
                Some(v) => Ok(v),
                None => {
                    let mut m: Vec<u8> = text("UndefVarError: `");
                    let name: Vec<u8> = symbol::as_str(rt, sym);
                    push_bytes(&mut m, name.as_slice());
                    push_text(&mut m, "` not defined in `Main`");
                    Err(errors::wrap_msg(rt, m))
                },
            }
        },
    }
}

/// Reads the operands to the roots from `at` on.
fn read_args(
    rt: &mut Runtime,
    base: usize,
    nslots: usize,
    ops: &Vec<Op>,
    at: usize,
) -> (r: Result<(), Value>)
    ensures
        (final(rt)@, r) == old(rt)@.read_args(base as int, nslots as int, ops@, at as int, 0),
{
    let mut j: usize = 0;
    while j < ops.len()
        invariant
            j <= ops.len(),
            old(rt)@.read_args(base as int, nslots as int, ops@, at as int, 0) == rt@.read_args(
                base as int,
                nslots as int,
                ops@,
                at as int,
                j as int,
            ),
        decreases ops.len() - j,
    {
        match read_op(rt, base, nslots, ops[j]) {
            Ok(v) => {
                put(rt, at, j, v);
            },
            Err(e) => {
                return Err(e);
            },
        }
        j = j + 1;
    }
    Ok(())
}

/// Pushes `n` null roots.
fn push_frame(rt: &mut Runtime, n: usize)
    ensures
        final(rt)@ == old(rt)@.push_frame(n as nat),
{
    let f: Frame = Frame::new(rt, n);
}

/// An operand of a division.
fn numeral(rt: &Runtime, v: Value) -> (r: Num)
    ensures
        r == rt@.numeral(v.0),
{
    if type_of(rt, v) == access::builtin(rt, id::FLOAT64) {
        Num::Bits(unbox_float64(rt, v))
    } else {
        Num::Int(unbox_int(rt, v))
    }
}

/// A boxed integer as the outcome of an operation.
fn int_result(rt: &mut Runtime, x: i64) -> (r: Applied)
    ensures
        (final(rt)@, r) == old(rt)@.int_result(x),
{
    Applied::Done(box_int(rt, x))
}

fn checked_result(rt: &mut Runtime, x: Option<i64>) -> (r: Applied)
    ensures
        (final(rt)@, r) == old(rt)@.checked_result(x),
{
    match x {
        Some(q) => int_result(rt, q),
        None => Applied::Raise(errors::divide_error(rt)),
    }
}

fn float_request(rt: &Runtime, op: FloatOp, x: Value, y: Value) -> (r: Applied)
    ensures
        (rt@, r) == rt@.float_request(op, x.0, y.0),
{
    Applied::Float(
        FloatCall {
            op,
            a: Num::Bits(unbox_float64(rt, x)),
            b: Num::Bits(unbox_float64(rt, y)),
        },
    )
}

/// Applies a builtin to two doubles.
fn apply_float(rt: &mut Runtime, b: Builtin, x: Value, y: Value) -> (r: Applied)
    ensures
        (final(rt)@, r) == old(rt)@.apply_float(b, x.0, y.0),
{
    match b {
        Builtin::Add => float_request(rt, FloatOp::Add, x, y),
        Builtin::Sub => float_request(rt, FloatOp::Sub, x, y),
        Builtin::Mul => float_request(rt, FloatOp::Mul, x, y),
        Builtin::Rem => float_request(rt, FloatOp::Rem, x, y),
        Builtin::Slt => float_request(rt, FloatOp::Lt, x, y),
        Builtin::Sle => float_request(rt, FloatOp::Le, x, y),
        Builtin::Eq => float_request(rt, FloatOp::Eq, x, y),
        _ => Applied::Raise(errors::error_exception(rt, "integer operator applied to Float64")),
    }
}

/// Applies a builtin to two integers.
fn apply_int(rt: &mut Runtime, b: Builtin, a: i64, c: i64) -> (r: Applied)
    ensures
        (final(rt)@, r) == old(rt)@.apply_int(b, a, c),
{
    match b {
        Builtin::Add => int_result(rt, add_int(a, c)),
        Builtin::Sub => int_result(rt, sub_int(a, c)),
        Builtin::Mul => int_result(rt, mul_int(a, c)),
        Builtin::IDiv => checked_result(rt, checked_sdiv_int(a, c)),
        Builtin::Rem => checked_result(rt, checked_srem_int(a, c)),
        Builtin::And => int_result(rt, and_int(a, c)),
        Builtin::Or => int_result(rt, or_int(a, c)),
        Builtin::Xor => int_result(rt, xor_int(a, c)),
        Builtin::Shl => int_result(rt, shl_int(a, c)),
        Builtin::Shr => int_result(rt, ashr_int(a, c)),
        Builtin::Lshr => int_result(rt, lshr_int(a, c)),
        Builtin::Slt => Applied::Done(box_bool(rt, slt_int(a, c))),
        Builtin::Sle => Applied::Done(box_bool(rt, sle_int(a, c))),
        _ => Applied::Done(box_bool(rt, eq_int(a, c))),
    }
}

/// Applies a builtin operation.
fn apply(rt: &mut Runtime, b: Builtin, x: Value, y: Value) -> (r: Applied)
    ensures
        (final(rt)@, r) == old(rt)@.apply_builtin(b, x.0, y.0),
{
    proof {
        reveal(State::apply_builtin);
    }
    if b == Builtin::Egal {
        return Applied::Done(box_bool(rt, egal(rt, x, y)));
    }
    if b == Builtin::Div {
        return Applied::Float(
            FloatCall { op: FloatOp::Div, a: numeral(rt, x), b: numeral(rt, y) },
        );
    }
    if type_of(rt, x) == access::builtin(rt, id::FLOAT64) {
        return apply_float(rt, b, x, y);
    }
    let a: i64 = unbox_int(rt, x);
    let c: i64 = unbox_int(rt, y);
    apply_int(rt, b, a, c)
}

/// Runs a builtin operation.
fn do_call(rt: &mut Runtime, base: usize, nslots: usize, ip: usize, b: Builtin, args: &Vec<Op>) -> (f:
    Flow)
    ensures
        (final(rt)@, f) == old(rt)@.do_call(base as int, nslots as int, ip as int, b, args@),
{
    proof {
        reveal(State::do_call);
    }
    let at: usize = rt.roots.len();
    let n: usize = args.len();
    push_frame(rt, n);
    match read_args(rt, base, nslots, args, at) {
        Err(e) => {
            rt.pop_roots(n);
            Flow::Throw(e)
        },
        Ok(_) => {
            let x: Value = root_at(rt, at, 0);
            let y: Value = root_at(rt, at, 1);
            match apply(rt, b, x, y) {
                Applied::Done(v) => {
                    rt.pop_roots(n);
                    settle(rt, base, nslots, ip, None, Ok(v))
                },
                Applied::Raise(e) => {
                    rt.pop_roots(n);
                    Flow::Throw(e)
                },
                Applied::Float(call) => Flow::Float { call, n },
            }
        },
    }
}

/// Calls the generic function `func` on the topmost `n` roots but the `first` ones.
fn do_dispatch(
    rt: &mut Runtime,
    base: usize,
    nslots: usize,
    ip: usize,
    func: u32,
    n: usize,
    first: usize,
    slot: Option<usize>,
) -> (f: Flow)
    ensures
        (final(rt)@, f) == old(rt)@.do_dispatch(
            base as int,
            nslots as int,
            ip as int,
            func,
            n,
            first,
            slot,
        ),
{
    proof {
        reveal(State::do_dispatch);
    }
    let vals: Vec<Value> = top_values(rt, n, first);
    let types: Vec<u32> = list_types(rt, &vals);
    match dispatch::select(rt, func, &types) {
        Some(i) => {
            if i < rt.methods.len() {
                match rt.methods[i].fptr1 {
                    Some(index) => {
                        return Flow::Compiled { index, n, first, slot };
                    },
                    None => (),
                }
                match &rt.methods[i].body {
                    Some(body) => {
                        return Flow::Call { body: share(body), n, first, slot };
                    },
                    None => (),
                }
            }
        },
        None => (),
    }
    rt.pop_roots(n);
    settle(rt, base, nslots, ip, slot, Ok(Value(NULL)))
}

/// The types of the given values.
fn list_types(rt: &Runtime, vals: &Vec<Value>) -> (r: Vec<u32>)
    ensures
        r@ == vals@.map_values(|v: Value| rt@.tag(v.0)),
{
    let mut r: Vec<u32> = Vec::new();
    let mut i: usize = 0;
    while i < vals.len()
        invariant
            i <= vals.len(),
            r.len() == i,
            forall|k: int| 0 <= k < i ==> r@[k] == rt@.tag(vals@[k].0),
        decreases vals.len() - i,
    {
        r.push(type_of(rt, vals[i]));
        i = i + 1;
    }
    assert(r@ =~= vals@.map_values(|v: Value| rt@.tag(v.0)));
    r
}

/// Calls a generic function by its identifier.
fn do_generic(
    rt: &mut Runtime,
    base: usize,
    nslots: usize,
    ip: usize,
    func: u32,
    args: &Vec<Op>,
) -> (f: Flow)
    ensures
        (final(rt)@, f) == old(rt)@.do_generic(
            base as int,
            nslots as int,
            ip as int,
            func,
            args@,
        ),
{
    let at: usize = rt.roots.len();
    let n: usize = args.len();
    push_frame(rt, n);
    match read_args(rt, base, nslots, args, at) {
        Err(e) => {
            rt.pop_roots(n);
            Flow::Throw(e)
        },
        Ok(_) => do_dispatch(rt, base, nslots, ip, func, n, 0, None),
    }
}

/// Calls the value of the first operand.
fn do_value_call(
    rt: &mut Runtime,
    base: usize,
    nslots: usize,
    ip: usize,
    slot: Option<usize>,
    args: &Vec<Op>,
) -> (f: Flow)
    ensures
        (final(rt)@, f) == old(rt)@.do_value_call(
            base as int,
            nslots as int,
            ip as int,
            slot,
            args@,
        ),
{
    proof {
        reveal(State::do_value_call);
    }
    let at: usize = rt.roots.len();
    let n: usize = args.len();
    push_frame(rt, n);
    match read_args(rt, base, nslots, args, at) {
        Err(e) => {
            rt.pop_roots(n);
            return Flow::Throw(e);
        },
        Ok(_) => (),
    }
    let callee: Value = root_at(rt, at, 0);
    let count: usize = if n > 0 {
        n - 1
    } else {
        0
    };
    match dispatch::callable_of(rt, callee) {
        Some(FnKind::Generic(func)) => do_dispatch(
            rt,
            base,
            nslots,
            ip,
            func,
            n,
            if n > 0 {
                1
            } else {
                0
            },
            slot,
        ),
        Some(FnKind::Native(f)) => {
            let vals: Vec<Value> = values_at(rt, at, 1, count);
            assert(rt@.values_at(at + 1, count as int) =~= rt@.values_at(at + 1, n - 1));
            let r: Result<Value, Value> = run_native(rt, f, &vals);
            rt.pop_roots(n);
            settle(rt, base, nslots, ip, slot, r)
        },
        None => {
            let mut m: Vec<u8> = text("MethodError: objects of type ");
            let name: Vec<u8> = symbol::as_str(rt, access::type_sym(rt, type_of(rt, callee)));
            push_bytes(&mut m, name.as_slice());
            push_text(&mut m, " are not callable");
            let e: Value = errors::wrap_msg(rt, m);
            rt.pop_roots(n);
            Flow::Throw(e)
        },
    }
}

/// Constructs a struct.
fn do_new(rt: &mut Runtime, base: usize, nslots: usize, ip: usize, t: u32, args: &Vec<Op>) -> (f:
    Flow)
    ensures
        (final(rt)@, f) == old(rt)@.do_new(base as int, nslots as int, ip as int, t, args@),
{
    proof {
        reveal(State::do_new);
    }
    let at: usize = rt.roots.len();
    let n: usize = args.len();
    push_frame(rt, n);
    match read_args(rt, base, nslots, args, at) {
        Err(e) => {
            rt.pop_roots(n);
            return Flow::Throw(e);
        },
        Ok(_) => (),
    }
    let vals: Vec<Value> = values_at(rt, at, 0, n);
    match new_struct(rt, t, &vals) {
        Ok(v) => {
            rt.pop_roots(n);
            settle(rt, base, nslots, ip, None, Ok(v))
        },
        Err(m) => {
            let e: Value = errors::wrap_msg(rt, m);
            rt.pop_roots(n);
            Flow::Throw(e)
        },
    }
}

/// The message for a missing field.
fn no_field(rt: &Runtime, t: u32, name: u32) -> (r: Vec<u8>)
    ensures
        r@ == rt@.no_field_text(t, name),
{
    let mut m: Vec<u8> = text("type ");
    let tn: Vec<u8> = symbol::as_str(rt, access::type_sym(rt, t));
    push_bytes(&mut m, tn.as_slice());
    push_text(&mut m, " has no field ");
    let fnm: Vec<u8> = symbol::as_str(rt, name);
    push_bytes(&mut m, fnm.as_slice());
    m
}

/// Reads a field.
fn do_get_field(rt: &mut Runtime, base: usize, nslots: usize, ip: usize, op: Op, name: u32) -> (f:
    Flow)
    ensures
        (final(rt)@, f) == old(rt)@.do_get_field(
            base as int,
            nslots as int,
            ip as int,
            op,
            name,
        ),
{
    proof {
        reveal(State::do_get_field);
    }
    let v: Value = match read_op(rt, base, nslots, op) {
        Err(e) => {
            return Flow::Throw(e);
        },
        Ok(v) => v,
    };
    let t: u32 = type_of(rt, v);
    match field_index(rt, t, name) {
        None => {
            let m: Vec<u8> = no_field(rt, t, name);
            fail(rt, m)
        },
        Some(i) => match get_nth_field(rt, v, i) {
            Ok(r) => settle(rt, base, nslots, ip, None, Ok(r)),
            Err(m) => fail(rt, m),
        },
    }
}

/// Writes a field.
fn do_set_field(
    rt: &mut Runtime,
    base: usize,
    nslots: usize,
    ip: usize,
    obj: Op,
    name: u32,
    rhs: Op,
) -> (f: Flow)
    ensures
        (final(rt)@, f) == old(rt)@.do_set_field(
            base as int,
            nslots as int,
            ip as int,
            obj,
            name,
            rhs,
        ),
{
    proof {
        reveal(State::do_set_field);
    }
    let v: Value = match read_op(rt, base, nslots, obj) {
        Err(e) => {
            return Flow::Throw(e);
        },
        Ok(v) => v,
    };
    let r: Value = match read_op(rt, base, nslots, rhs) {
        Err(e) => {
            return Flow::Throw(e);
        },
        Ok(r) => r,
    };
    let t: u32 = type_of(rt, v);
    match field_index(rt, t, name) {
        None => {
            let m: Vec<u8> = no_field(rt, t, name);
            fail(rt, m)
        },
        Some(i) => match set_nth_field(rt, v, i, r) {
            Ok(_) => settle(rt, base, nslots, ip, None, Ok(r)),
            Err(m) => fail(rt, m),
        },
    }
}

/// Declares a generic function.
fn do_method_func(rt: &mut Runtime, base: usize, nslots: usize, ip: usize, sym: u32) -> (f: Flow)
    ensures
        (final(rt)@, f) == old(rt)@.do_method_func(base as int, nslots as int, ip as int, sym),
{
    proof {
        reveal(State::do_method_func);
    }
    let main: Value = Value(module::main_offset(rt));
    match module::get_global(rt, main, sym) {
        Some(v) => {
            if dispatch::func_of(rt, v).is_none() {
                let mut m: Vec<u8> = text("cannot define function ");
                let name: Vec<u8> = symbol::as_str(rt, sym);
                push_bytes(&mut m, name.as_slice());
                push_text(&mut m, "; it already has a value");
                return fail(rt, m);
            }
            settle(rt, base, nslots, ip, None, Ok(v))
        },
        None => {
            let name: Vec<u8> = symbol::as_str(rt, sym);
            let func: u32 = dispatch::fresh_func_id(rt);
            let f: Value = dispatch::make_function(rt, &name, func);
            store(rt, base, nslots, ip, None, f);
            let main2: Value = Value(module::main_offset(rt));
            match module::set_global(rt, main2, sym, f) {
                Ok(_) => settle(rt, base, nslots, ip, None, Ok(f)),
                Err(e) => Flow::Throw(e),
            }
        },
    }
}

/// The signature that a method definition's operand stands for.
fn method_signature(rt: &mut Runtime, sig: u32) -> (r: Result<u32, Value>)
    ensures
        (final(rt)@, r) == old(rt)@.method_signature(sig),
{
    proof {
        reveal(State::method_signature);
    }
    if access::is_datatype(rt, sig) && access::is_tuple(rt, sig) {
        return Ok(sig);
    }
    if !access::is_svec(rt, access::tag_of(rt, sig)) || access::svec_len(rt, sig) < 2 {
        return Err(
            errors::error_exception(
                rt,
                "method: signature must be a Tuple type or argdata svec",
            ),
        );
    }
    let sigv: u32 = access::svec_ref(rt, sig, 0);
    let sparams: u32 = access::svec_ref(rt, sig, 1);
    if !access::is_svec(rt, access::tag_of(rt, sigv)) || !access::is_svec(
        rt,
        access::tag_of(rt, sparams),
    ) {
        return Err(errors::error_exception(rt, "method: malformed argdata"));
    }
    if access::svec_len(rt, sparams) != 0 {
        return Err(errors::error_exception(rt, "method: static parameters not supported yet"));
    }
    let all: Vec<u32> = access::svec_vec(rt, sigv);
    let mut types: Vec<u32> = Vec::new();
    let mut i: usize = 1;
    while i < all.len()
        invariant
            1 <= i,
            i <= all.len() || i == 1,
            types.len() == i - 1,
            forall|k: int| 0 <= k < i - 1 ==> types@[k] == all@[k + 1],
        decreases all.len() - i,
    {
        types.push(all[i]);
        i = i + 1;
    }
    proof {
        if all.len() > 0 {
            assert(types@ =~= all@.skip(1));
        } else {
            assert(types@ =~= all@);
        }
    }
    rt.push_root(sig);
    let t: u32 = tuple_type(rt, &types);
    rt.pop_roots(1);
    Ok(t)
}

/// Defines a method.
fn do_method_def(
    rt: &mut Runtime,
    base: usize,
    nslots: usize,
    ip: usize,
    fop: Op,
    sigop: Op,
    body: &Rc<Body>,
) -> (f: Flow)
    ensures
        (final(rt)@, f) == old(rt)@.do_method_def(
            base as int,
            nslots as int,
            ip as int,
            fop,
            sigop,
            *body,
        ),
{
    proof {
        reveal(State::do_method_def);
    }
    let fv: Value = match read_op(rt, base, nslots, fop) {
        Err(e) => {
            return Flow::Throw(e);
        },
        Ok(v) => v,
    };
    let sig: Value = match read_op(rt, base, nslots, sigop) {
        Err(e) => {
            return Flow::Throw(e);
        },
        Ok(v) => v,
    };
    let func: u32 = match dispatch::func_of(rt, fv) {
        None => {
            return fail(rt, text("method: not a generic function"));
        },
        Some(func) => func,
    };
    match method_signature(rt, sig.0) {
        Err(e) => Flow::Throw(e),
        Ok(t) => {
            dispatch::add_method(rt, func, t, share(body));
            let v: Value = Value(access::nothing_instance(rt));
            settle(rt, base, nslots, ip, None, Ok(v))
        },
    }
}

/// The element type of an array literal.
fn common_type(rt: &Runtime, vals: &Vec<Value>) -> (r: u32)
    ensures
        r == rt@.common_type(vals@),
{
    if vals.len() == 0 {
        return access::builtin(rt, id::ANY);
    }
    let t0: u32 = type_of(rt, vals[0]);
    let mut j: usize = 0;
    while j < vals.len()
        invariant
            j <= vals.len(),
            0 < vals.len(),
            t0 == rt@.tag(vals@[0].0),
            forall|k: int| 0 <= k < j ==> rt@.tag((#[trigger] vals@[k]).0) == t0,
        decreases vals.len() - j,
    {
        if type_of(rt, vals[j]) != t0 {
            assert(rt@.tag(vals@[j as int].0) != t0);
            return access::builtin(rt, id::ANY);
        }
        j = j + 1;
    }
    t0
}

/// Stores the values in the array `a`.
fn fill_array(rt: &mut Runtime, a: Value, vals: &Vec<Value>) -> (r: Result<(), Value>)
    ensures
        (final(rt)@, r) == old(rt)@.fill_array(a.0, vals@, 0),
{
    let mut j: usize = 0;
    while j < vals.len()
        invariant
            j <= vals.len(),
            old(rt)@.fill_array(a.0, vals@, 0) == rt@.fill_array(a.0, vals@, j as int),
        decreases vals.len() - j,
    {
        match array::aset(rt, a, j as u32, vals[j]) {
            Ok(_) => (),
            Err(e) => {
                return Err(e);
            },
        }
        j = j + 1;
    }
    Ok(())
}

/// Makes an array literal.
fn do_array(rt: &mut Runtime, base: usize, nslots: usize, ip: usize, args: &Vec<Op>) -> (f: Flow)
    ensures
        (final(rt)@, f) == old(rt)@.do_array(base as int, nslots as int, ip as int, args@),
{
    proof {
        reveal(State::do_array);
    }
    let at: usize = rt.roots.len();
    let n: usize = args.len();
    push_frame(rt, n);
    match read_args(rt, base, nslots, args, at) {
        Err(e) => {
            rt.pop_roots(n);
            return Flow::Throw(e);
        },
        Ok(_) => (),
    }
    let vals: Vec<Value> = values_at(rt, at, 0, n);
    let elem: u32 = common_type(rt, &vals);
    match array::alloc_1d(rt, elem, n as u32) {
        Err(e) => {
            rt.pop_roots(n);
            Flow::Throw(e)
        },
        Ok(a) => {
            rt.push_root(a.0);
            let r: Result<(), Value> = fill_array(rt, a, &vals);
            let ghost s2 = rt@;
            rt.pop_roots(n);
            rt.pop_roots(1);
            assert(rt@ =~= s2.pop_roots(n + 1));
            match r {
                Err(e) => Flow::Throw(e),
                Ok(_) => settle(rt, base, nslots, ip, None, Ok(a)),
            }
        },
    }
}

/// Demands an array.
fn expect_array(rt: &mut Runtime, v: Value) -> (r: Result<(), Value>)
    ensures
        (final(rt)@, r) == old(rt)@.expect_array(v.0),
{
    if is_array(rt, type_of(rt, v)) {
        Ok(())
    } else {
        Err(errors::error_exception(rt, "MethodError: expected an Array"))
    }
}

/// The position for a boxed index that counts from one.
fn index_checked(rt: &mut Runtime, a: Value, i: Value) -> (r: Result<u32, Value>)
    ensures
        (final(rt)@, r) == old(rt)@.index_checked(a.0, i.0),
{
    proof {
        reveal(State::index_checked);
    }
    match expect_array(rt, a) {
        Err(e) => {
            return Err(e);
        },
        Ok(_) => (),
    }
    let k: i64 = unbox_int(rt, i);
    if k < 1 || k > array::len(rt, a) as i64 {
        return Err(errors::bounds_error(rt, a, k));
    }
    Ok((k - 1) as u32)
}

/// Reads an array element.
fn do_array_ref(rt: &mut Runtime, base: usize, nslots: usize, ip: usize, a: Op, idx: Op) -> (f:
    Flow)
    ensures
        (final(rt)@, f) == old(rt)@.do_array_ref(
            base as int,
            nslots as int,
            ip as int,
            a,
            idx,
        ),
{
    proof {
        reveal(State::do_array_ref);
    }
    let av: Value = match read_op(rt, base, nslots, a) {
        Err(e) => {
            return Flow::Throw(e);
        },
        Ok(v) => v,
    };
    let i: Value = match read_op(rt, base, nslots, idx) {
        Err(e) => {
            return Flow::Throw(e);
        },
        Ok(v) => v,
    };
    match index_checked(rt, av, i) {
        Err(e) => Flow::Throw(e),
        Ok(k) => {
            let r: Result<Value, Value> = array::aref(rt, av, k);
            settle(rt, base, nslots, ip, None, r)
        },
    }
}

/// Writes an array element.
fn do_array_set(
    rt: &mut Runtime,
    base: usize,
    nslots: usize,
    ip: usize,
    a: Op,
    idx: Op,
    rhs: Op,
) -> (f: Flow)
    ensures
        (final(rt)@, f) == old(rt)@.do_array_set(
            base as int,
            nslots as int,
            ip as int,
            a,
            idx,
            rhs,
        ),
{
    proof {
        reveal(State::do_array_set);
    }
    let av: Value = match read_op(rt, base, nslots, a) {
        Err(e) => {
            return Flow::Throw(e);
        },
        Ok(v) => v,
    };
    let i: Value = match read_op(rt, base, nslots, idx) {
        Err(e) => {
            return Flow::Throw(e);
        },
        Ok(v) => v,
    };
    let r: Value = match read_op(rt, base, nslots, rhs) {
        Err(e) => {
            return Flow::Throw(e);
        },
        Ok(v) => v,
    };
    match index_checked(rt, av, i) {
        Err(e) => Flow::Throw(e),
        Ok(k) => match array::aset(rt, av, k, r) {
            Err(e) => Flow::Throw(e),
            Ok(_) => settle(rt, base, nslots, ip, None, Ok(r)),
        },
    }
}

/// Appends to an array.
fn do_push(rt: &mut Runtime, base: usize, nslots: usize, ip: usize, a: Op, v: Op) -> (f: Flow)
    ensures
        (final(rt)@, f) == old(rt)@.do_push(base as int, nslots as int, ip as int, a, v),
{
    proof {
        reveal(State::do_push);
    }
    let av: Value = match read_op(rt, base, nslots, a) {
        Err(e) => {
            return Flow::Throw(e);
        },
        Ok(x) => x,
    };
    let x: Value = match read_op(rt, base, nslots, v) {
        Err(e) => {
            return Flow::Throw(e);
        },
        Ok(x) => x,
    };
    match expect_array(rt, av) {
        Err(e) => Flow::Throw(e),
        Ok(_) => match array::push(rt, av, x) {
            Err(e) => Flow::Throw(e),
            Ok(_) => settle(rt, base, nslots, ip, None, Ok(av)),
        },
    }
}

/// The length of an array.
fn do_len(rt: &mut Runtime, base: usize, nslots: usize, ip: usize, a: Op) -> (f: Flow)
    ensures
        (final(rt)@, f) == old(rt)@.do_len(base as int, nslots as int, ip as int, a),
{
    proof {
        reveal(State::do_len);
    }
    let av: Value = match read_op(rt, base, nslots, a) {
        Err(e) => {
            return Flow::Throw(e);
        },
        Ok(x) => x,
    };
    match expect_array(rt, av) {
        Err(e) => Flow::Throw(e),
        Ok(_) => {
            let n: i64 = array::len(rt, av) as i64;
            let v: Value = box_int(rt, n);
            settle(rt, base, nslots, ip, None, Ok(v))
        },
    }
}

/// Whether an operand is defined.
fn op_defined(rt: &mut Runtime, base: usize, op: Op) -> (r: bool)
    ensures
        (final(rt)@, r) == old(rt)@.op_defined(base as int, op),
{
    match op {
        Op::Slot(k) => !root_at(rt, base, k).is_null(),
        Op::Global(sym) => {
            let main: Value = Value(module::main_offset(rt));
            module::get_global(rt, main, sym).is_some()
        },
        _ => true,
    }
}

/// Reads one operand and stores it.
fn do_assign(
    rt: &mut Runtime,
    base: usize,
    nslots: usize,
    ip: usize,
    slot: Option<usize>,
    op: Op,
) -> (f: Flow)
    ensures
        (final(rt)@, f) == old(rt)@.do_assign(base as int, nslots as int, ip as int, slot, op),
{
    let r: Result<Value, Value> = read_op(rt, base, nslots, op);
    settle(rt, base, nslots, ip, slot, r)
}

/// Assigns a global.
fn do_assign_global(rt: &mut Runtime, base: usize, nslots: usize, ip: usize, sym: u32, op: Op) -> (f:
    Flow)
    ensures
        (final(rt)@, f) == old(rt)@.do_assign_global(
            base as int,
            nslots as int,
            ip as int,
            sym,
            op,
        ),
{
    let v: Value = match read_op(rt, base, nslots, op) {
        Err(e) => {
            return Flow::Throw(e);
        },
        Ok(x) => x,
    };
    store(rt, base, nslots, ip, None, v);
    let main: Value = Value(module::main_offset(rt));
    match module::set_global(rt, main, sym, v) {
        Ok(_) => Flow::Next,
        Err(e) => Flow::Throw(e),
    }
}

/// Runs statement `ip` of an activation whose slots begin at `base`.
fn exec_stmt(rt: &mut Runtime, base: usize, nslots: usize, ip: usize, stmt: &Stmt) -> (f: Flow)
    ensures
        (final(rt)@, f) == old(rt)@.exec_stmt(base as int, nslots as int, ip as int, *stmt),
{
    proof {
        reveal(State::exec_stmt);
    }
    match stmt {
        Stmt::Goto(target) => Flow::Jump(*target),
        Stmt::GotoIfNot(cond, target) => match read_op(rt, base, nslots, *cond) {
            Err(e) => Flow::Throw(e),
            Ok(c) => if unbox_bool(rt, c) {
                Flow::Next
            } else {
                Flow::Jump(*target)
            },
        },
        Stmt::Return(op) => match read_op(rt, base, nslots, *op) {
            Err(e) => Flow::Throw(e),
            Ok(v) => Flow::Return(v),
        },
        Stmt::Value(op) => do_assign(rt, base, nslots, ip, None, *op),
        Stmt::Assign(slot, op) => do_assign(rt, base, nslots, ip, Some(*slot), *op),
        Stmt::AssignCall(slot, args) => do_value_call(rt, base, nslots, ip, Some(*slot), args),
        Stmt::CallValue(args) => do_value_call(rt, base, nslots, ip, None, args),
        Stmt::LatestWorld => Flow::Next,
        Stmt::AssignGlobal(sym, op) => do_assign_global(rt, base, nslots, ip, *sym, *op),
        Stmt::Call(b, args) => do_call(rt, base, nslots, ip, *b, args),
        Stmt::CallGeneric(func, args) => do_generic(rt, base, nslots, ip, *func, args),
        Stmt::New(t, args) => do_new(rt, base, nslots, ip, *t, args),
        Stmt::GetField(op, name) => do_get_field(rt, base, nslots, ip, *op, *name),
        Stmt::SetField(obj, name, rhs) => do_set_field(rt, base, nslots, ip, *obj, *name, *rhs),
        Stmt::Enter(catch_ip) => {
            let n: i64 = errors::exc_state(rt) as i64;
            let v: Value = box_int(rt, n);
            store(rt, base, nslots, ip, None, v);
            Flow::Enter(*catch_ip)
        },
        Stmt::Leave(n) => Flow::Leave(*n),
        Stmt::Throw(op) => match read_op(rt, base, nslots, *op) {
            Err(e) => Flow::Throw(e),
            Ok(v) => Flow::Throw(v),
        },
        Stmt::MethodFunc(sym) => do_method_func(rt, base, nslots, ip, *sym),
        Stmt::MethodDef(fop, sigop, body) => do_method_def(
            rt,
            base,
            nslots,
            ip,
            *fop,
            *sigop,
            body,
        ),
        Stmt::Caught => {
            let v: Value = errors::exc_current(rt);
            settle(rt, base, nslots, ip, None, Ok(v))
        },
        Stmt::AssignCaught(slot) => {
            let v: Value = errors::exc_current(rt);
            settle(rt, base, nslots, ip, Some(*slot), Ok(v))
        },
        Stmt::Rethrow => Flow::Rethrow(errors::exc_current(rt)),
        Stmt::PopException(op) => match read_op(rt, base, nslots, *op) {
            Err(e) => Flow::Throw(e),
            Ok(v) => {
                let n: i64 = unbox_int(rt, v);
                if n >= 0 && n as u64 <= rt.exc.len() as u64 {
                    errors::exc_restore(rt, n as usize);
                }
                Flow::Next
            },
        },
        Stmt::ArrayLit(args) => do_array(rt, base, nslots, ip, args),
        Stmt::ArrayRef(a, idx) => do_array_ref(rt, base, nslots, ip, *a, *idx),
        Stmt::ArraySet(a, idx, rhs) => do_array_set(rt, base, nslots, ip, *a, *idx, *rhs),
        Stmt::Push(a, v) => do_push(rt, base, nslots, ip, *a, *v),
        Stmt::Len(a) => do_len(rt, base, nslots, ip, *a),
        Stmt::IsDefined(op) => {
            let b: bool = op_defined(rt, base, *op);
            let v: Value = box_bool(rt, b);
            settle(rt, base, nslots, ip, None, Ok(v))
        },
    }
}

// --- activations -----------------------------------------------------------

/// The statement after `ip`.
fn next_ip(ip: usize) -> (r: usize)
    ensures
        r == after(ip),
{
    if ip == usize::MAX {
        ip
    } else {
        ip + 1
    }
}

/// Starts an activation of `body`.
fn activate(
    rt: &mut Runtime,
    m: &mut Machine,
    body: Rc<Body>,
    seeds: &Vec<(usize, Value)>,
    flush: Vec<(usize, u32)>,
)
    ensures
        (final(rt)@, final(m)@) == old(rt)@.activate(old(m)@, body, seeds@, flush@),
{
    proof {
        reveal(State::activate);
    }
    if body.nslots > MAX_FRAME || body.code.len() > MAX_FRAME - body.nslots {
        m.status = Status::Malformed;
        return;
    }
    let base: usize = rt.roots.len();
    push_frame(rt, body.nslots + body.code.len());
    let ghost s1 = rt@;
    let mut i: usize = 0;
    while i < seeds.len()
        invariant
            i <= seeds.len(),
            s1.seed(base as int, seeds@, 0) == rt@.seed(base as int, seeds@, i as int),
        decreases seeds.len() - i,
    {
        put(rt, base, seeds[i].0, seeds[i].1);
        i = i + 1;
    }
    let a: Activation = Activation {
        body,
        base,
        ip: 0,
        handlers: Vec::new(),
        pending: None,
        flush,
    };
    assert(a@.handlers =~= Seq::<usize>::empty());
    m.acts.push(a);
    m.status = Status::Running;
    assert(m@.acts =~= old(m)@.acts.push(a@));
}

/// The number of roots that the topmost activation keeps for a request.
fn pending_count(m: &Machine) -> (r: usize)
    requires
        m.acts.len() > 0,
    ensures
        r == match m@.acts.last().pending {
            Some(p) => p.n,
            None => 0,
        },
{
    let top: &Activation = &m.acts[m.acts.len() - 1];
    assert(m@.acts.last() == top@);
    match top.pending {
        Some(p) => p.n,
        None => 0,
    }
}

/// Ends the topmost activation.
fn deactivate(rt: &mut Runtime, m: &mut Machine)
    requires
        old(m).acts.len() > 0,
    ensures
        (final(rt)@, final(m)@) == old(rt)@.deactivate(old(m)@),
        final(m).acts.len() == old(m).acts.len() - 1,
{
    let ghost a0 = m.acts@;
    let k: usize = m.acts.len() - 1;
    let top: &Activation = &m.acts[k];
    assert(m@.acts.last() == top@);
    let nslots: usize = top.body.nslots;
    let ncode: usize = top.body.code.len();
    let ghost s0 = rt@;
    rt.pop_roots(ncode);
    rt.pop_roots(nslots);
    assert(rt@ =~= s0.pop_roots(nslots + ncode));
    let last: Option<Activation> = m.acts.pop();
    assert(m@.acts =~= old(m)@.acts.drop_last());
    if m.acts.len() > 0 {
        let n: usize = pending_count(m);
        rt.pop_roots(n);
    }
}

/// Raises the exception `v` in the topmost activation.
fn raise(rt: &mut Runtime, m: &mut Machine, v: Value, record: bool)
    ensures
        (final(rt)@, final(m)@) == old(rt)@.raise(old(m)@, v, record),
{
    proof {
        reveal(State::raise);
    }
    let mut push: bool = record;
    while m.acts.len() > 0
        invariant
            old(rt)@.raise(old(m)@, v, record) == rt@.raise(m@, v, push),
        decreases m.acts.len(),
    {
        proof {
            reveal(State::raise);
        }
        let k: usize = m.acts.len() - 1;
        assert(m@.acts.last() == m.acts@[k as int]@);
        let nh: usize = m.acts[k].handlers.len();
        if nh > 0 {
            if push {
                errors::exc_push(rt, v);
            }
            let ghost m0 = m@;
            let ghost top = m.acts@[k as int]@;
            let catch_ip: usize = m.acts[k].handlers[nh - 1];
            m.acts[k].handlers.truncate(nh - 1);
            m.acts[k].ip = catch_ip;
            m.acts[k].pending = None;
            assert(m.acts@[k as int]@.handlers =~= top.handlers.drop_last());
            assert(m@.acts =~= m0.acts.drop_last().push(m.acts@[k as int]@));
            return;
        }
        deactivate(rt, m);
        push = true;
    }
    m.status = Status::Raised(v);
}

/// Hands the result `v` to the topmost activation.
fn deliver(rt: &mut Runtime, m: &mut Machine, v: Value)
    requires
        old(m).acts.len() > 0,
    ensures
        (final(rt)@, final(m)@) == old(rt)@.deliver(old(m)@, v),
{
    let k: usize = m.acts.len() - 1;
    assert(m@.acts.last() == m.acts@[k as int]@);
    let slot: Option<usize> = match m.acts[k].pending {
        Some(p) => p.slot,
        None => None,
    };
    let base: usize = m.acts[k].base;
    let nslots: usize = m.acts[k].body.nslots;
    let ip: usize = m.acts[k].ip;
    store(rt, base, nslots, ip, slot, v);
    let ghost m0 = m@;
    m.acts[k].ip = next_ip(ip);
    m.acts[k].pending = None;
    assert(m@.acts =~= m0.acts.drop_last().push(m.acts@[k as int]@));
}

/// Binds the globals of the given slots.
fn flush_slots(rt: &mut Runtime, base: usize, flush: &Vec<(usize, u32)>) -> (r: Result<(), Value>)
    ensures
        (final(rt)@, r) == old(rt)@.flush_slots(base as int, flush@, 0),
{
    let mut i: usize = 0;
    while i < flush.len()
        invariant
            i <= flush.len(),
            old(rt)@.flush_slots(base as int, flush@, 0) == rt@.flush_slots(
                base as int,
                flush@,
                i as int,
            ),
        decreases flush.len() - i,
    {
        let v: Value = root_at(rt, base, flush[i].0);
        if !v.is_null() {
            let main: Value = Value(module::main_offset(rt));
            match module::set_global(rt, main, flush[i].1, v) {
                Ok(_) => (),
                Err(e) => {
                    return Err(e);
                },
            }
        }
        i = i + 1;
    }
    Ok(())
}

/// Returns `v` from the topmost activation.
fn finish(rt: &mut Runtime, m: &mut Machine, v: Value)
    requires
        old(m).acts.len() > 0,
    ensures
        (final(rt)@, final(m)@) == old(rt)@.finish(old(m)@, v),
{
    proof {
        reveal(State::finish);
    }
    let k: usize = m.acts.len() - 1;
    assert(m@.acts.last() == m.acts@[k as int]@);
    rt.push_root(v.0);
    let top: &Activation = &m.acts[k];
    let r: Result<(), Value> = flush_slots(rt, top.base, &top.flush);
    rt.pop_roots(1);
    deactivate(rt, m);
    match r {
        Err(e) => raise(rt, m, e, true),
        Ok(_) => if m.acts.len() == 0 {
            m.status = Status::Returned(v);
        } else {
            deliver(rt, m, v);
        },
    }
}

/// Sets the statement to run next in the topmost activation.
fn set_ip(m: &mut Machine, ip: usize)
    requires
        old(m).acts.len() > 0,
    ensures
        final(m)@ == old(m)@.with_top((ActV { ip, ..old(m)@.acts.last() })),
{
    let k: usize = m.acts.len() - 1;
    let ghost m0 = m@;
    assert(m0.acts.last() == m.acts@[k as int]@);
    m.acts[k].ip = ip;
    assert(m@.acts =~= m0.acts.drop_last().push(m.acts@[k as int]@));
}

/// Records what the topmost activation waits for.
fn set_pending(m: &mut Machine, p: Pending)
    requires
        old(m).acts.len() > 0,
    ensures
        final(m)@ == old(m)@.with_top((ActV { pending: Some(p), ..old(m)@.acts.last() })),
{
    let k: usize = m.acts.len() - 1;
    let ghost m0 = m@;
    assert(m0.acts.last() == m.acts@[k as int]@);
    m.acts[k].pending = Some(p);
    assert(m@.acts =~= m0.acts.drop_last().push(m.acts@[k as int]@));
}

/// The arguments of a call, as seeds of the leading slots.
fn call_seeds(rt: &Runtime, n: usize, first: usize) -> (r: Vec<(usize, Value)>)
    ensures
        r@ == rt@.call_seeds(n as int, first as int),
{
    let vals: Vec<Value> = top_values(rt, n, first);
    let r: Vec<(usize, Value)> = number_values(&vals);
    assert(r@ =~= rt@.call_seeds(n as int, first as int));
    r
}

/// The values with their positions.
fn number_values(vals: &Vec<Value>) -> (r: Vec<(usize, Value)>)
    ensures
        r@ == vals@.map(|i: int, v: Value| (i as usize, v)),
{
    let mut r: Vec<(usize, Value)> = Vec::new();
    let mut i: usize = 0;
    while i < vals.len()
        invariant
            i <= vals.len(),
            r.len() == i,
            forall|k: int| 0 <= k < i ==> r@[k] == (k as usize, vals@[k]),
        decreases vals.len() - i,
    {
        r.push((i, vals[i]));
        i = i + 1;
    }
    assert(r@ =~= vals@.map(|i: int, v: Value| (i as usize, v)));
    r
}

/// Continues after a statement with the given flow.
fn follow(rt: &mut Runtime, m: &mut Machine, flow: Flow)
    requires
        old(m).acts.len() > 0,
    ensures
        (final(rt)@, final(m)@) == old(rt)@.follow(old(m)@, flow),
{
    proof {
        reveal(State::follow);
    }
    let k: usize = m.acts.len() - 1;
    assert(m@.acts.last() == m.acts@[k as int]@);
    let ip: usize = m.acts[k].ip;
    match flow {
        Flow::Next => set_ip(m, next_ip(ip)),
        Flow::Jump(target) => set_ip(m, target),
        Flow::Throw(v) => raise(rt, m, v, true),
        Flow::Rethrow(v) => raise(rt, m, v, false),
        Flow::Return(v) => finish(rt, m, v),
        Flow::Enter(catch_ip) => {
            let ghost m0 = m@;
            m.acts[k].handlers.push(catch_ip);
            m.acts[k].ip = next_ip(ip);
            assert(m@.acts =~= m0.acts.drop_last().push(m.acts@[k as int]@));
        },
        Flow::Leave(n) => {
            let ghost m0 = m@;
            let nh: usize = m.acts[k].handlers.len();
            let keep: usize = if n <= nh {
                nh - n
            } else {
                0
            };
            m.acts[k].handlers.truncate(keep);
            m.acts[k].ip = next_ip(ip);
            assert(m@.acts =~= m0.acts.drop_last().push(m.acts@[k as int]@));
        },
        Flow::Call { body, n, first, slot } => {
            let seeds: Vec<(usize, Value)> = call_seeds(rt, n, first);
            set_pending(m, Pending { n, slot });
            let flush: Vec<(usize, u32)> = Vec::new();
            assert(flush@ =~= Seq::<(usize, u32)>::empty());
            activate(rt, m, body, &seeds, flush);
        },
        Flow::Float { call, n } => {
            set_pending(m, Pending { n, slot: None });
            m.status = Status::Float(call);
        },
        Flow::Compiled { index, n, first, slot } => {
            set_pending(m, Pending { n, slot });
            m.status = Status::Compiled {
                index,
                nargs: if first <= n {
                    n - first
                } else {
                    0
                },
            };
        },
    }
}

/// Runs one statement.
pub fn step(rt: &mut Runtime, m: &mut Machine)
    ensures
        (final(rt)@, final(m)@) == old(rt)@.step(old(m)@),
{
    proof {
        reveal(State::step);
    }
    if m.status != Status::Running || m.acts.len() == 0 {
        return;
    }
    let k: usize = m.acts.len() - 1;
    assert(m@.acts.last() == m.acts@[k as int]@);
    let ip: usize = m.acts[k].ip;
    let base: usize = m.acts[k].base;
    let body: Rc<Body> = share(&m.acts[k].body);
    if ip >= body.code.len() {
        m.status = Status::Malformed;
        return;
    }
    let flow: Flow = exec_stmt(rt, base, body.nslots, ip, &body.code[ip]);
    follow(rt, m, flow);
}

/// Runs at most `budget` statements, up to the next pause.
pub fn run(rt: &mut Runtime, m: &mut Machine, budget: u64)
    ensures
        (final(rt)@, final(m)@) == old(rt)@.run(old(m)@, budget as nat),
{
    let mut n: u64 = budget;
    while n > 0 && m.status == Status::Running && m.acts.len() > 0
        invariant
            n <= budget,
            old(rt)@.run(old(m)@, budget as nat) == rt@.run(m@, n as nat),
        decreases n,
    {
        step(rt, m);
        n = n - 1;
    }
}

/// Goes on after a request was answered.
fn answer(rt: &mut Runtime, m: &mut Machine, r: Result<Value, Value>)
    requires
        old(m).acts.len() > 0,
    ensures
        (final(rt)@, final(m)@) == old(rt)@.answer(old(m)@, r),
{
    let n: usize = pending_count(m);
    rt.pop_roots(n);
    m.status = Status::Running;
    match r {
        Ok(v) => deliver(rt, m, v),
        Err(e) => raise(rt, m, e, true),
    }
}

/// Answers a floating-point request with the bits of the result, or for a comparison
/// with zero for false. Without such a request nothing happens.
pub fn resume_float(rt: &mut Runtime, m: &mut Machine, bits: u64)
    ensures
        (final(rt)@, final(m)@) == old(rt)@.resume_float(old(m)@, bits),
{
    proof {
        reveal(State::resume_float);
    }
    if m.acts.len() == 0 {
        return;
    }
    match m.status {
        Status::Float(call) => {
            let v: Value = if call.op == FloatOp::Lt || call.op == FloatOp::Le || call.op
                == FloatOp::Eq {
                box_bool(rt, bits != 0)
            } else {
                box_float64(rt, bits)
            };
            answer(rt, m, Ok(v));
        },
        _ => (),
    }
}

/// Answers a request for a compiled method. Without such a request nothing happens.
pub fn resume_compiled(rt: &mut Runtime, m: &mut Machine, r: Result<Value, Value>)
    ensures
        (final(rt)@, final(m)@) == old(rt)@.resume_compiled(old(m)@, r),
{
    proof {
        reveal(State::resume_compiled);
    }
    if m.acts.len() == 0 {
        return;
    }
    match m.status {
        Status::Compiled { index, nargs } => answer(rt, m, r),
        _ => (),
    }
}

/// The arguments of the compiled method that the program waits for.
pub fn compiled_args(rt: &Runtime, m: &Machine) -> (r: Vec<Value>)
    ensures
        r@ == match m.status {
            Status::Compiled { index, nargs } => rt@.values_at(
                rt@.roots.len() - nargs,
                nargs as int,
            ),
            _ => Seq::empty(),
        },
{
    match m.status {
        Status::Compiled { index, nargs } => top_values(rt, nargs, 0),
        _ => {
            let r: Vec<Value> = Vec::new();
            assert(r@ =~= Seq::<Value>::empty());
            r
        },
    }
}

impl State {
    /// A program that begins with an activation of `body`.
    pub open spec fn start(
        self,
        body: Rc<Body>,
        seeds: Seq<(usize, Value)>,
        flush: Seq<(usize, u32)>,
    ) -> (State, MachineV) {
        self.activate(
            MachineV { acts: Seq::empty(), status: Status::Running },
            body,
            seeds,
            flush,
        )
    }

    /// A program run up to its end or its first pause.
    pub open spec fn begin(
        self,
        body: Rc<Body>,
        seeds: Seq<(usize, Value)>,
        flush: Seq<(usize, u32)>,
    ) -> (State, MachineV) {
        let (s, m) = self.start(body, seeds, flush);
        s.run(m, u64::MAX as nat)
    }
}

/// Runs `body` without arguments, up to its end or its first pause.
pub fn eval(rt: &mut Runtime, body: &Rc<Body>) -> (m: Machine)
    ensures
        (final(rt)@, m@) == old(rt)@.begin(*body, Seq::empty(), Seq::empty()),
{
    let seeds: Vec<(usize, Value)> = Vec::new();
    let flush: Vec<(usize, u32)> = Vec::new();
    assert(seeds@ =~= Seq::<(usize, Value)>::empty());
    assert(flush@ =~= Seq::<(usize, u32)>::empty());
    eval_toplevel(rt, body, &seeds, flush)
}

/// Runs `body` with the arguments in its leading slots.
pub fn eval_with_args(rt: &mut Runtime, body: &Rc<Body>, args: &Vec<Value>) -> (m: Machine)
    ensures
        (final(rt)@, m@) == old(rt)@.begin(
            *body,
            args@.map(|i: int, v: Value| (i as usize, v)),
            Seq::empty(),
        ),
{
    let seeds: Vec<(usize, Value)> = number_values(args);
    let flush: Vec<(usize, u32)> = Vec::new();
    assert(flush@ =~= Seq::<(usize, u32)>::empty());
    eval_toplevel(rt, body, &seeds, flush)
}

/// Runs `body` with the given slots bound; when it returns, the slots of `flush` are
/// bound to globals.
pub fn eval_toplevel(
    rt: &mut Runtime,
    body: &Rc<Body>,
    seed: &Vec<(usize, Value)>,
    flush: Vec<(usize, u32)>,
) -> (m: Machine)
    ensures
        (final(rt)@, m@) == old(rt)@.begin(*body, seed@, flush@),
{
    let mut m: Machine = Machine { acts: Vec::new(), status: Status::Running };
    assert(m@.acts =~= Seq::<ActV>::empty());
    activate(rt, &mut m, share(body), seed, flush);
    run(rt, &mut m, u64::MAX);
    m
}

/// Calls the generic function `func` on `args`: without a method the program has
/// returned null already.
pub fn invoke(rt: &mut Runtime, func: u32, args: &Vec<Value>) -> (m: Machine)
    ensures
        (final(rt)@, m@) == old(rt)@.invoke(func, args@),
{
    let types: Vec<u32> = list_types(rt, args);
    match dispatch::select(rt, func, &types) {
        Some(i) => {
            if i < rt.methods.len() {
                match rt.methods[i].fptr1 {
                    Some(index) => {
                        let m: Machine = Machine {
                            acts: Vec::new(),
                            status: Status::Compiled { index, nargs: 0 },
                        };
                        assert(m@.acts =~= Seq::<ActV>::empty());
                        return m;
                    },
                    None => (),
                }
                match &rt.methods[i].body {
                    Some(body) => {
                        let b: Rc<Body> = share(body);
                        return eval_with_args(rt, &b, args);
                    },
                    None => (),
                }
            }
        },
        None => (),
    }
    let m: Machine = Machine { acts: Vec::new(), status: Status::Returned(Value(NULL)) };
    assert(m@.acts =~= Seq::<ActV>::empty());
    m
}

impl State {
    /// The program of a call of the generic function `func`. A compiled method is
    /// left to the caller, who has the arguments.
    pub open spec fn invoke(self, func: u32, args: Seq<Value>) -> (State, MachineV) {
        let (s, chosen) = self.select(func, args.map_values(|v: Value| self.tag(v.0)));
        let none = Seq::<ActV>::empty();
        let nothing = MachineV { acts: none, status: Status::Returned(Value(NULL)) };
        match chosen {
            Some(i) if i < s.methods.len() => match s.methods[i as int].fptr1 {
                Some(index) => (
                    s,
                    MachineV { acts: none, status: Status::Compiled { index, nargs: 0 } },
                ),
                None => match s.methods[i as int].body {
                    Some(body) => s.begin(
                        body,
                        args.map(|i: int, v: Value| (i as usize, v)),
                        Seq::empty(),
                    ),
                    None => (s, nothing),
                },
            },
            _ => (s, nothing),
        }
    }
}

/// Gives up a program: its roots are released.
pub fn abandon(rt: &mut Runtime, m: Machine)
    ensures
        final(rt)@.roots == if m@.acts.len() > 0 && m@.acts[0].base <= old(rt)@.roots.len() {
            old(rt)@.roots.take(m@.acts[0].base as int)
        } else {
            old(rt)@.roots
        },
        final(rt)@ == (State { roots: final(rt)@.roots, ..old(rt)@ }),
{
    if m.acts.len() > 0 {
        assert(m@.acts[0] == m.acts@[0]@);
        if m.acts[0].base <= rt.roots.len() {
            rt.roots.truncate(m.acts[0].base);
        }
    }
}

} // verus!
