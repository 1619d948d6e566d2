//! The bindings that lowered code reaches by name: native functions, the operators
//! as generic functions with one method per pair of numbers, and the core types.

use std::rc::Rc;
use vstd::prelude::*;
use crate::access;
use crate::bytes::{text, utf8};
use crate::dispatch::{add_method, fresh_func_id, make_function, make_native_function};
use crate::id;
use crate::ir::{
    body_view, code_view, share, Body, BodyV, Builtin, Entry, FnKind, Native, Op, Stmt, StmtV,
};
use crate::module::{main_offset, set_global};
use crate::state::{Runtime, State, Value};
use crate::symbol::intern_bytes;
use crate::types::tuple_type;

verus! {

/// An operator: its name, its operation, and whether its operands change places.
pub struct OperatorV {
    pub name: Seq<u8>,
    pub op: Builtin,
    pub flipped: bool,
}

/// The native functions.
pub open spec fn natives() -> Seq<(Seq<u8>, Native)> {
    seq![
        (utf8("svec"), Native::Svec),
        (utf8("Typeof"), Native::Typeof),
        (utf8("typeof"), Native::Typeof),
        (utf8("isa"), Native::Isa),
        (utf8("throw"), Native::Throw),
        (utf8("convert"), Native::Convert),
        (utf8("declare_global"), Native::DeclareGlobal),
        (utf8("get_binding_type"), Native::GetBindingType),
        (utf8("setglobal!"), Native::SetGlobal),
    ]
}

pub open spec fn operator(name: &str, op: Builtin, flipped: bool) -> OperatorV {
    OperatorV { name: utf8(name), op, flipped }
}

/// The operators.
pub open spec fn operators() -> Seq<OperatorV> {
    seq![
        operator("+", Builtin::Add, false),
        operator("-", Builtin::Sub, false),
        operator("*", Builtin::Mul, false),
        operator("/", Builtin::Div, false),
        operator("÷", Builtin::IDiv, false),
        operator("%", Builtin::Rem, false),
        operator("==", Builtin::Eq, false),
        operator("<", Builtin::Slt, false),
        operator("<=", Builtin::Sle, false),
        operator("===", Builtin::Egal, false),
        operator(">", Builtin::Slt, true),
        operator(">=", Builtin::Sle, true),
    ]
}

/// The core types that have a name.
pub open spec fn type_names() -> Seq<(Seq<u8>, u32)> {
    seq![
        (utf8("Any"), id::ANY),
        (utf8("Int64"), id::INT64),
        (utf8("Int"), id::INT64),
        (utf8("Float64"), id::FLOAT64),
        (utf8("Bool"), id::BOOL),
        (utf8("Nothing"), id::NOTHING),
        (utf8("Integer"), id::INTEGER),
        (utf8("Real"), id::REAL),
        (utf8("Number"), id::NUMBER),
        (utf8("Function"), id::FUNCTION),
        (utf8("Exception"), id::EXCEPTION),
        (utf8("DivideError"), id::DIVIDEERROR),
    ]
}

/// The body of an operator's methods: the operation on the two arguments.
pub open spec fn operator_body(o: OperatorV) -> BodyV {
    let (a, b) = if o.flipped {
        (Op::Slot(1), Op::Slot(0))
    } else {
        (Op::Slot(0), Op::Slot(1))
    };
    BodyV {
        nslots: 2,
        code: seq![StmtV::Call(o.op, seq![a, b]), StmtV::Return(Op::Ssa(0))],
    }
}

/// Whether `bodies` holds two bodies for each operator, one per pair of numbers.
pub open spec fn are_operator_bodies(bodies: Seq<Rc<Body>>) -> bool {
    &&& bodies.len() == 2 * operators().len()
    &&& forall|i: int|
        0 <= i < bodies.len() ==> body_view(*#[trigger] bodies[i]) == operator_body(
            operators()[i / 2],
        )
}

impl State {
    /// Binds a name in the main module.
    pub open spec fn bind(self, name: Seq<u8>, v: u32) -> (State, Result<(), Value>) {
        let (s, sym) = self.intern(self.builtin(id::SYMBOL), name);
        s.set_global(s.main, sym, v)
    }

    /// Binds the native functions from `i` on.
    pub open spec fn bind_natives(self, i: int) -> (State, Result<(), Value>)
        decreases natives().len() - i,
    {
        if i < 0 || i >= natives().len() {
            (self, Ok(()))
        } else {
            let (name, f) = natives()[i];
            let (s, v) = self.make_callable(name, FnKind::Native(f));
            match s.bind(name, v) {
                (s1, Ok(_)) => s1.bind_natives(i + 1),
                (s1, Err(e)) => (s1, Err(e)),
            }
        }
    }

    /// The state with a method on two values of one core type.
    pub open spec fn add_pair(self, func: u32, elem: u32, body: Rc<Body>) -> State {
        let t = self.builtin(elem);
        let (s, sig) = self.tuple_type(seq![t, t]);
        s.with_method(Entry { func, sig, body: Some(body), fptr1: None })
    }

    /// Binds an operator.
    #[verifier::opaque]
    pub open spec fn bind_operator(self, o: OperatorV, ints: Rc<Body>, floats: Rc<Body>) -> (
        State,
        Result<(), Value>,
    ) {
        let func = self.next_func;
        let s = self.take_func().add_pair(func, id::INT64, ints).add_pair(
            func,
            id::FLOAT64,
            floats,
        );
        let (s1, v) = s.make_callable(o.name, FnKind::Generic(func));
        s1.bind(o.name, v)
    }

    /// Binds the operators from `i` on.
    pub open spec fn bind_operators(self, bodies: Seq<Rc<Body>>, i: int) -> (
        State,
        Result<(), Value>,
    )
        decreases operators().len() - i,
    {
        if i < 0 || i >= operators().len() {
            (self, Ok(()))
        } else {
            match self.bind_operator(operators()[i], bodies[2 * i], bodies[2 * i + 1]) {
                (s, Ok(_)) => s.bind_operators(bodies, i + 1),
                (s, Err(e)) => (s, Err(e)),
            }
        }
    }

    /// Binds the names of core types from `i` on.
    pub open spec fn bind_types(self, i: int) -> (State, Result<(), Value>)
        decreases type_names().len() - i,
    {
        if i < 0 || i >= type_names().len() {
            (self, Ok(()))
        } else {
            match self.bind(type_names()[i].0, self.builtin(type_names()[i].1)) {
                (s, Ok(_)) => s.bind_types(i + 1),
                (s, Err(e)) => (s, Err(e)),
            }
        }
    }

    /// The state with all bindings, or up to the first that failed.
    pub open spec fn install_prelude(self, bodies: Seq<Rc<Body>>) -> (State, Result<(), Value>) {
        match self.bind_natives(0) {
            (s, Err(e)) => (s, Err(e)),
            (s, Ok(_)) => match s.bind_operators(bodies, 0) {
                (s1, Err(e)) => (s1, Err(e)),
                (s1, Ok(_)) => s1.bind_types(0),
            },
        }
    }
}

/// Binds a name in the main module.
fn bind(rt: &mut Runtime, name: &Vec<u8>, v: Value) -> (r: Result<(), Value>)
    ensures
        (final(rt)@, r) == old(rt)@.bind(name@, v.0),
{
    let st: u32 = access::builtin(rt, id::SYMBOL);
    let sym: u32 = intern_bytes(rt, st, name.as_slice());
    let main: u32 = main_offset(rt);
    set_global(rt, Value(main), sym, v)
}

/// The native functions.
fn list_natives() -> (r: Vec<(Vec<u8>, Native)>)
    ensures
        r.len() == natives().len(),
        forall|i: int|
            0 <= i < r.len() ==> (#[trigger] r@[i]).0@ == natives()[i].0 && r@[i].1
                == natives()[i].1,
{
    let mut r: Vec<(Vec<u8>, Native)> = Vec::new();
    r.push((text("svec"), Native::Svec));
    r.push((text("Typeof"), Native::Typeof));
    r.push((text("typeof"), Native::Typeof));
    r.push((text("isa"), Native::Isa));
    r.push((text("throw"), Native::Throw));
    r.push((text("convert"), Native::Convert));
    r.push((text("declare_global"), Native::DeclareGlobal));
    r.push((text("get_binding_type"), Native::GetBindingType));
    r.push((text("setglobal!"), Native::SetGlobal));
    r
}

/// The operators.
fn list_operators() -> (r: Vec<(Vec<u8>, Builtin, bool)>)
    ensures
        r.len() == operators().len(),
        forall|i: int|
            0 <= i < r.len() ==> (#[trigger] r@[i]).0@ == operators()[i].name && r@[i].1
                == operators()[i].op && r@[i].2 == operators()[i].flipped,
{
    let mut r: Vec<(Vec<u8>, Builtin, bool)> = Vec::new();
    r.push((text("+"), Builtin::Add, false));
    r.push((text("-"), Builtin::Sub, false));
    r.push((text("*"), Builtin::Mul, false));
    r.push((text("/"), Builtin::Div, false));
    r.push((text("÷"), Builtin::IDiv, false));
    r.push((text("%"), Builtin::Rem, false));
    r.push((text("=="), Builtin::Eq, false));
    r.push((text("<"), Builtin::Slt, false));
    r.push((text("<="), Builtin::Sle, false));
    r.push((text("==="), Builtin::Egal, false));
    r.push((text(">"), Builtin::Slt, true));
    r.push((text(">="), Builtin::Sle, true));
    r
}

/// The core types that have a name.
fn list_type_names() -> (r: Vec<(Vec<u8>, u32)>)
    ensures
        r.len() == type_names().len(),
        forall|i: int|
            0 <= i < r.len() ==> (#[trigger] r@[i]).0@ == type_names()[i].0 && r@[i].1
                == type_names()[i].1,
{
    let mut r: Vec<(Vec<u8>, u32)> = Vec::new();
    r.push((text("Any"), id::ANY));
    r.push((text("Int64"), id::INT64));
    r.push((text("Int"), id::INT64));
    r.push((text("Float64"), id::FLOAT64));
    r.push((text("Bool"), id::BOOL));
    r.push((text("Nothing"), id::NOTHING));
    r.push((text("Integer"), id::INTEGER));
    r.push((text("Real"), id::REAL));
    r.push((text("Number"), id::NUMBER));
    r.push((text("Function"), id::FUNCTION));
    r.push((text("Exception"), id::EXCEPTION));
    r.push((text("DivideError"), id::DIVIDEERROR));
    r
}

/// The body of an operator's methods.
fn operator_code(op: Builtin, flipped: bool) -> (r: Body)
    ensures
        forall|o: OperatorV|
            o.op == op && o.flipped == flipped ==> body_view(r) == #[trigger] operator_body(o),
{
    let args: Vec<Op> = if flipped {
        vec![Op::Slot(1), Op::Slot(0)]
    } else {
        vec![Op::Slot(0), Op::Slot(1)]
    };
    let ghost seen = args@;
    assert(seen =~= if flipped {
        seq![Op::Slot(1), Op::Slot(0)]
    } else {
        seq![Op::Slot(0), Op::Slot(1)]
    });
    let code: Vec<Stmt> = vec![Stmt::Call(op, args), Stmt::Return(Op::Ssa(0))];
    assert(code_view(code@) =~= seq![StmtV::Call(op, seen), StmtV::Return(Op::Ssa(0))]);
    Body { nslots: 2, code }
}

/// Two bodies for each operator.
fn operator_bodies(ops: &Vec<(Vec<u8>, Builtin, bool)>) -> (r: Vec<Rc<Body>>)
    requires
        ops.len() == operators().len(),
        forall|i: int|
            0 <= i < ops.len() ==> (#[trigger] ops@[i]).1 == operators()[i].op && ops@[i].2
                == operators()[i].flipped,
    ensures
        are_operator_bodies(r@),
{
    let mut r: Vec<Rc<Body>> = Vec::new();
    let mut i: usize = 0;
    while i < ops.len()
        invariant
            i <= ops.len(),
            r.len() == 2 * i,
            ops.len() == operators().len(),
            forall|i: int|
                0 <= i < ops.len() ==> (#[trigger] ops@[i]).1 == operators()[i].op && ops@[i].2
                    == operators()[i].flipped,
            forall|k: int|
                0 <= k < r.len() ==> body_view(*#[trigger] r@[k]) == operator_body(
                    operators()[k / 2],
                ),
        decreases ops.len() - i,
    {
        let ints: Body = operator_code(ops[i].1, ops[i].2);
        let floats: Body = operator_code(ops[i].1, ops[i].2);
        proof {
            let o = operators()[i as int];
            assert(body_view(ints) == operator_body(o) && body_view(floats) == operator_body(o));
            assert((2 * i) / 2 == i && (2 * i + 1) / 2 == i);
        }
        r.push(Rc::new(ints));
        r.push(Rc::new(floats));
        i = i + 1;
    }
    r
}

/// Adds a method on two values of one core type.
fn add_pair(rt: &mut Runtime, func: u32, elem: u32, body: Rc<Body>)
    ensures
        final(rt)@ == old(rt)@.add_pair(func, elem, body),
{
    let t: u32 = access::builtin(rt, elem);
    let elems: Vec<u32> = vec![t, t];
    assert(elems@ =~= seq![t, t]);
    let sig: u32 = tuple_type(rt, &elems);
    add_method(rt, func, sig, body);
}

/// Binds an operator.
fn bind_operator(rt: &mut Runtime, name: &Vec<u8>, ints: Rc<Body>, floats: Rc<Body>) -> (r: Result<
    (),
    Value,
>)
    ensures
        forall|o: OperatorV|
            o.name == name@ ==> (final(rt)@, r) == #[trigger] old(rt)@.bind_operator(
                o,
                ints,
                floats,
            ),
{
    proof {
        reveal(State::bind_operator);
    }
    let func: u32 = fresh_func_id(rt);
    add_pair(rt, func, id::INT64, ints);
    add_pair(rt, func, id::FLOAT64, floats);
    let v: Value = make_function(rt, name, func);
    bind(rt, name, v)
}

/// Binds the native functions.
fn bind_natives(rt: &mut Runtime) -> (r: Result<(), Value>)
    ensures
        (final(rt)@, r) == old(rt)@.bind_natives(0),
{
    let rows: Vec<(Vec<u8>, Native)> = list_natives();
    let mut i: usize = 0;
    while i < rows.len()
        invariant
            i <= rows.len() == natives().len(),
            forall|i: int|
                0 <= i < rows.len() ==> (#[trigger] rows@[i]).0@ == natives()[i].0 && rows@[i].1
                    == natives()[i].1,
            old(rt)@.bind_natives(0) == rt@.bind_natives(i as int),
        decreases rows.len() - i,
    {
        let v: Value = make_native_function(rt, &rows[i].0, rows[i].1);
        match bind(rt, &rows[i].0, v) {
            Ok(_) => {},
            Err(e) => {
                return Err(e);
            },
        }
        i = i + 1;
    }
    Ok(())
}

/// Binds the operators.
fn bind_operators(
    rt: &mut Runtime,
    rows: &Vec<(Vec<u8>, Builtin, bool)>,
    bodies: &Vec<Rc<Body>>,
) -> (r: Result<(), Value>)
    requires
        rows.len() == operators().len(),
        bodies.len() == 2 * rows.len(),
        forall|i: int|
            0 <= i < rows.len() ==> (#[trigger] rows@[i]).0@ == operators()[i].name,
    ensures
        (final(rt)@, r) == old(rt)@.bind_operators(bodies@, 0),
{
    let mut i: usize = 0;
    while i < rows.len()
        invariant
            i <= rows.len() == operators().len(),
            bodies.len() == 2 * rows.len(),
            forall|i: int|
                0 <= i < rows.len() ==> (#[trigger] rows@[i]).0@ == operators()[i].name,
            old(rt)@.bind_operators(bodies@, 0) == rt@.bind_operators(bodies@, i as int),
        decreases rows.len() - i,
    {
        let ints: Rc<Body> = share(&bodies[2 * i]);
        let floats: Rc<Body> = share(&bodies[2 * i + 1]);
        match bind_operator(rt, &rows[i].0, ints, floats) {
            Ok(_) => {},
            Err(e) => {
                return Err(e);
            },
        }
        i = i + 1;
    }
    Ok(())
}

/// Binds the names of core types.
fn bind_types(rt: &mut Runtime) -> (r: Result<(), Value>)
    ensures
        (final(rt)@, r) == old(rt)@.bind_types(0),
{
    let rows: Vec<(Vec<u8>, u32)> = list_type_names();
    let mut i: usize = 0;
    while i < rows.len()
        invariant
            i <= rows.len() == type_names().len(),
            forall|i: int|
                0 <= i < rows.len() ==> (#[trigger] rows@[i]).0@ == type_names()[i].0 && rows@[i].1
                    == type_names()[i].1,
            old(rt)@.bind_types(0) == rt@.bind_types(i as int),
        decreases rows.len() - i,
    {
        let t: u32 = access::builtin(rt, rows[i].1);
        match bind(rt, &rows[i].0, Value(t)) {
            Ok(_) => {},
            Err(e) => {
                return Err(e);
            },
        }
        i = i + 1;
    }
    Ok(())
}

/// Binds all names, with the given bodies of the operators.
fn bind_all(
    rt: &mut Runtime,
    rows: &Vec<(Vec<u8>, Builtin, bool)>,
    bodies: &Vec<Rc<Body>>,
) -> (r: Result<(), Value>)
    requires
        rows.len() == operators().len(),
        bodies.len() == 2 * rows.len(),
        forall|i: int|
            0 <= i < rows.len() ==> (#[trigger] rows@[i]).0@ == operators()[i].name,
    ensures
        (final(rt)@, r) == old(rt)@.install_prelude(bodies@),
{
    match bind_natives(rt) {
        Ok(_) => {},
        Err(e) => {
            return Err(e);
        },
    }
    match bind_operators(rt, rows, bodies) {
        Ok(_) => bind_types(rt),
        Err(e) => Err(e),
    }
}

/// Binds what lowered code reaches by name, up to the first binding that fails.
pub fn install_prelude(rt: &mut Runtime) -> (r: Result<(), Value>)
    ensures
        exists|bodies: Seq<Rc<Body>>|
            are_operator_bodies(bodies) && (final(rt)@, r) == #[trigger] old(rt)@.install_prelude(
                bodies,
            ),
{
    let rows: Vec<(Vec<u8>, Builtin, bool)> = list_operators();
    let bodies: Vec<Rc<Body>> = operator_bodies(&rows);
    let r: Result<(), Value> = bind_all(rt, &rows, &bodies);
    assert(are_operator_bodies(bodies@));
    assert((rt@, r) == old(rt)@.install_prelude(bodies@));
    r
}

} // verus!
