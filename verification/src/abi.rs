//! The host interface: start-up and one entry point per operation.
//!
//! Every entry point that needs the core types starts the runtime first if nobody
//! has. Programs that may pause are started with [`begin_eval`]; the host answers
//! their requests and reads the result of the finished program.

use std::rc::Rc;
use vstd::prelude::*;
use crate::access;
use crate::bootstrap::bootstrap;
use crate::dispatch;
use crate::egal;
use crate::errors::exc_reset;
use crate::frontend::eval_source;
use crate::gc;
use crate::id;
use crate::instantiate::instantiate_unionall;
use crate::interp::{abandon, eval_with_args, Machine};
use crate::interp_spec::{MachineV, Status};
use crate::intrinsics::{add_int, wrap};
use crate::ir::{body_view, code_view, share, Body, BodyV, Builtin, Entry, Op, Stmt, StmtV};
use crate::module::init_main;
use crate::object::type_of;
use crate::region;
use crate::region::NULL;
use crate::state::{Runtime, State, Value};
use crate::symbol;
use crate::types;
use crate::value::{box_bool, box_int, unbox_float64, unbox_int};

verus! {

/// The generic function that tells the type of its argument.
pub const F_CLASSIFY: u32 = 0;

/// The generic function that tells the types of its two arguments.
pub const F_COMBINE: u32 = 1;

/// The generic function that doubles its argument.
pub const F_DOUBLE: u32 = 2;

/// A method of the demonstration functions: its function, the core types of its
/// arguments, and its body.
pub struct DemoV {
    pub func: u32,
    pub ids: Seq<u32>,
    pub body: BodyV,
}

/// A body with `n` slots that returns `k`.
pub open spec fn constant_body(n: usize, k: i64) -> BodyV {
    BodyV { nslots: n, code: seq![StmtV::Return(Op::Int(k))] }
}

/// A body that adds its argument to itself.
pub open spec fn double_body() -> BodyV {
    BodyV {
        nslots: 1,
        code: seq![
            StmtV::Call(Builtin::Add, seq![Op::Slot(0), Op::Slot(0)]),
            StmtV::Return(Op::Ssa(0)),
        ],
    }
}

/// The methods of the demonstration functions.
pub open spec fn demo_methods() -> Seq<DemoV> {
    seq![
        DemoV { func: F_CLASSIFY, ids: seq![id::INTEGER], body: constant_body(1, 10) },
        DemoV { func: F_CLASSIFY, ids: seq![id::INT64], body: constant_body(1, 20) },
        DemoV { func: F_CLASSIFY, ids: seq![id::BOOL], body: constant_body(1, 30) },
        DemoV {
            func: F_COMBINE,
            ids: seq![id::INTEGER, id::INTEGER],
            body: constant_body(2, 1),
        },
        DemoV { func: F_COMBINE, ids: seq![id::INT64, id::INT64], body: constant_body(2, 2) },
        DemoV { func: F_DOUBLE, ids: seq![id::INT64], body: double_body() },
    ]
}

/// Whether `bodies` holds the bodies of the demonstration methods.
pub open spec fn are_demo_bodies(bodies: Seq<Rc<Body>>) -> bool {
    &&& bodies.len() == demo_methods().len()
    &&& forall|i: int|
        0 <= i < bodies.len() ==> body_view(*#[trigger] bodies[i]) == demo_methods()[i].body
}

impl State {
    /// The state with a method on arguments of the given core types.
    pub open spec fn add_demo(self, func: u32, ids: Seq<u32>, body: Rc<Body>) -> State {
        let (s, sig) = self.tuple_type(ids.map_values(|i: u32| self.builtin(i)));
        s.with_method(Entry { func, sig, body: Some(body), fptr1: None })
    }

    /// The state with the demonstration methods from `i` on.
    pub open spec fn install_methods(self, bodies: Seq<Rc<Body>>, i: int) -> State
        decreases demo_methods().len() - i,
    {
        if i < 0 || i >= demo_methods().len() {
            self
        } else {
            self.add_demo(demo_methods()[i].func, demo_methods()[i].ids, bodies[i]).install_methods(
                bodies,
                i + 1,
            )
        }
    }

    /// The state after start-up: an empty heap, the core types, the main module and
    /// the demonstration methods.
    pub open spec fn init_runtime(self, bodies: Seq<Rc<Body>>) -> (State, Result<(), Value>) {
        let s = self.region_init().reset_heap().dispatch_reset().bootstrap();
        let (s1, r) = State { exc: Seq::empty(), ..s }.init_main();
        (s1.install_methods(bodies, 0), r)
    }

    /// The state after a program was given up.
    pub open spec fn abandon(self, m: MachineV) -> State {
        if m.acts.len() > 0 && m.acts[0].base <= self.roots.len() {
            State { roots: self.roots.take(m.acts[0].base as int), ..self }
        } else {
            self
        }
    }

    /// The integer that `body` returns on `args`; the payload of null where it does
    /// not return.
    pub open spec fn int_of(self, body: Rc<Body>, args: Seq<Value>) -> (State, i64) {
        let (s, m) = self.begin(
            body,
            args.map(|i: int, v: Value| (i as usize, v)),
            Seq::empty(),
        );
        (s.abandon(m), s.unbox_int(outcome(m.status)))
    }

    /// The state after the integers from `i` up to `n` were boxed and dropped.
    pub open spec fn garbage(self, i: int, n: int) -> State
        decreases n - i,
    {
        if i >= n {
            self
        } else {
            self.box_int(i as i64).0.garbage(i + 1, n)
        }
    }

    /// The sum of two boxed integers that are rooted meanwhile.
    #[verifier::opaque]
    pub open spec fn demo_add(self, a: i64, b: i64) -> (State, i64) {
        let (s1, x) = self.box_int(a);
        let (s2, y) = s1.push_root(x).box_int(b);
        let s3 = s2.push_root(y);
        let sum = wrap(s3.unbox_int(x) + s3.unbox_int(y));
        let (s4, z) = s3.box_int(sum);
        (s4.push_root(z).pop_roots(3), s4.unbox_int(z))
    }
}

/// The value that a program returned, or null.
pub open spec fn outcome(status: Status) -> u32 {
    match status {
        Status::Returned(v) => v.0,
        _ => NULL,
    }
}

/// Whether the started runtime `t` comes from `s`: `s` itself if it was started, or
/// else a fresh start.
pub open spec fn ready(s: State, t: State) -> bool {
    if s.region.initialized {
        t == s
    } else {
        exists|bodies: Seq<Rc<Body>>|
            are_demo_bodies(bodies) && t == (#[trigger] s.init_runtime(bodies)).0
    }
}

/// A body with `n` slots that returns `k`.
fn constant(n: usize, k: i64) -> (r: Body)
    ensures
        body_view(r) == constant_body(n, k),
{
    let code: Vec<Stmt> = vec![Stmt::Return(Op::Int(k))];
    assert(code_view(code@) =~= seq![StmtV::Return(Op::Int(k))]);
    Body { nslots: n, code }
}

/// Two operands.
fn pair(a: Op, b: Op) -> (r: Vec<Op>)
    ensures
        r@ == seq![a, b],
{
    let mut r: Vec<Op> = Vec::new();
    r.push(a);
    r.push(b);
    assert(r@ =~= seq![a, b]);
    r
}

/// A body that adds its argument to itself.
fn double() -> (r: Body)
    ensures
        body_view(r) == double_body(),
{
    let mut code: Vec<Stmt> = Vec::new();
    code.push(Stmt::Call(Builtin::Add, pair(Op::Slot(0), Op::Slot(0))));
    code.push(Stmt::Return(Op::Ssa(0)));
    assert(code_view(code@) =~= double_body().code);
    Body { nslots: 1, code }
}

/// The bodies of the demonstration methods.
fn demo_bodies() -> (r: Vec<Rc<Body>>)
    ensures
        are_demo_bodies(r@),
{
    let mut r: Vec<Rc<Body>> = Vec::new();
    r.push(Rc::new(constant(1, 10)));
    r.push(Rc::new(constant(1, 20)));
    r.push(Rc::new(constant(1, 30)));
    r.push(Rc::new(constant(2, 1)));
    r.push(Rc::new(constant(2, 2)));
    r.push(Rc::new(double()));
    r
}

/// The functions and argument types of the demonstration methods.
fn demo_heads() -> (r: Vec<(u32, Vec<u32>)>)
    ensures
        r.len() == demo_methods().len(),
        forall|i: int|
            0 <= i < r.len() ==> (#[trigger] r@[i]).0 == demo_methods()[i].func && r@[i].1@
                == demo_methods()[i].ids,
{
    let mut r: Vec<(u32, Vec<u32>)> = Vec::new();
    r.push((F_CLASSIFY, vec![id::INTEGER]));
    r.push((F_CLASSIFY, vec![id::INT64]));
    r.push((F_CLASSIFY, vec![id::BOOL]));
    r.push((F_COMBINE, vec![id::INTEGER, id::INTEGER]));
    r.push((F_COMBINE, vec![id::INT64, id::INT64]));
    r.push((F_DOUBLE, vec![id::INT64]));
    assert forall|i: int| 0 <= i < r.len() implies (#[trigger] r@[i]).0 == demo_methods()[i].func
        && r@[i].1@ == demo_methods()[i].ids by {
        assert(r@[i].1@ =~= demo_methods()[i].ids);
    }
    r
}

/// Adds a method on arguments of the given core types.
fn add_demo(rt: &mut Runtime, func: u32, ids: &Vec<u32>, body: Rc<Body>)
    ensures
        final(rt)@ == old(rt)@.add_demo(func, ids@, body),
{
    let mut elems: Vec<u32> = Vec::new();
    let mut i: usize = 0;
    while i < ids.len()
        invariant
            i <= ids.len(),
            elems.len() == i,
            *rt == *old(rt),
            forall|k: int| 0 <= k < i ==> elems@[k] == rt@.builtin(ids@[k]),
        decreases ids.len() - i,
    {
        elems.push(access::builtin(rt, ids[i]));
        i = i + 1;
    }
    assert(elems@ =~= ids@.map_values(|i: u32| rt@.builtin(i)));
    let sig: u32 = types::tuple_type(rt, &elems);
    dispatch::add_method(rt, func, sig, body);
}

/// Adds the demonstration methods.
fn install_methods(rt: &mut Runtime, bodies: &Vec<Rc<Body>>)
    requires
        bodies.len() == demo_methods().len(),
    ensures
        final(rt)@ == old(rt)@.install_methods(bodies@, 0),
{
    let heads: Vec<(u32, Vec<u32>)> = demo_heads();
    let mut i: usize = 0;
    while i < heads.len()
        invariant
            i <= heads.len() == bodies.len() == demo_methods().len(),
            forall|i: int|
                0 <= i < heads.len() ==> (#[trigger] heads@[i]).0 == demo_methods()[i].func
                    && heads@[i].1@ == demo_methods()[i].ids,
            old(rt)@.install_methods(bodies@, 0) == rt@.install_methods(bodies@, i as int),
        decreases heads.len() - i,
    {
        add_demo(rt, heads[i].0, &heads[i].1, share(&bodies[i]));
        i = i + 1;
    }
}

/// Starts the runtime with the given bodies.
fn start(rt: &mut Runtime, bodies: &Vec<Rc<Body>>) -> (r: Result<(), Value>)
    requires
        bodies.len() == demo_methods().len(),
    ensures
        (final(rt)@, r) == old(rt)@.init_runtime(bodies@),
{
    region::init(rt);
    gc::reset_heap(rt);
    dispatch::reset(rt);
    bootstrap(rt);
    exc_reset(rt);
    let r: Result<(), Value> = init_main(rt);
    install_methods(rt, bodies);
    r
}

/// Starts the runtime, or starts it anew: the heap is empty before the core types
/// are made. An error says that the main module did not fit.
pub fn init_runtime(rt: &mut Runtime) -> (r: Result<(), Value>)
    ensures
        exists|bodies: Seq<Rc<Body>>|
            are_demo_bodies(bodies) && (final(rt)@, r) == #[trigger] old(rt)@.init_runtime(bodies),
{
    let bodies: Vec<Rc<Body>> = demo_bodies();
    let r: Result<(), Value> = start(rt, &bodies);
    assert(are_demo_bodies(bodies@));
    assert((rt@, r) == old(rt)@.init_runtime(bodies@));
    r
}

/// Starts the runtime unless it was started.
pub fn ensure_init(rt: &mut Runtime)
    ensures
        ready(old(rt)@, final(rt)@),
{
    if !region::is_initialized(rt) {
        let bodies: Vec<Rc<Body>> = demo_bodies();
        let _ = start(rt, &bodies);
        assert(are_demo_bodies(bodies@));
        assert(rt@ == old(rt)@.init_runtime(bodies@).0);
    }
}

/// Starts the runtime, or starts it anew.
pub fn rj_init(rt: &mut Runtime) -> (r: Result<(), Value>)
    ensures
        exists|bodies: Seq<Rc<Body>>|
            are_demo_bodies(bodies) && (final(rt)@, r) == #[trigger] old(rt)@.init_runtime(bodies),
{
    init_runtime(rt)
}

/// The value that a program returned, or null.
fn value_of(m: &Machine) -> (r: Value)
    ensures
        r.0 == outcome(m@.status),
{
    match m.status {
        Status::Returned(v) => v,
        _ => Value(NULL),
    }
}

/// Gives a program up.
fn drop_program(rt: &mut Runtime, m: Machine)
    ensures
        final(rt)@ == old(rt)@.abandon(m@),
{
    abandon(rt, m);
    assert(rt@ =~= old(rt)@.abandon(m@));
}

/// The integer that `body` returns on `args`.
fn run_int(rt: &mut Runtime, body: &Rc<Body>, args: &Vec<Value>) -> (r: i64)
    ensures
        (final(rt)@, r) == old(rt)@.int_of(*body, args@),
{
    let m: Machine = eval_with_args(rt, body, args);
    let v: i64 = unbox_int(rt, value_of(&m));
    drop_program(rt, m);
    v
}

/// A body that calls `func` on its `n` arguments.
pub open spec fn call_body(func: u32, n: usize) -> BodyV {
    BodyV {
        nslots: n,
        code: seq![
            StmtV::CallGeneric(func, Seq::new(n as nat, |i: int| Op::Slot(i as usize))),
            StmtV::Return(Op::Ssa(0)),
        ],
    }
}

/// Builds a body that calls `func` on its `n` arguments.
fn generic_call_body(func: u32, n: usize) -> (r: Body)
    ensures
        body_view(r) == call_body(func, n),
{
    let mut args: Vec<Op> = Vec::new();
    let mut i: usize = 0;
    while i < n
        invariant
            i <= n,
            args.len() == i,
            forall|k: int| 0 <= k < i ==> args@[k] == Op::Slot(k as usize),
        decreases n - i,
    {
        args.push(Op::Slot(i));
        i = i + 1;
    }
    assert(args@ =~= Seq::new(n as nat, |i: int| Op::Slot(i as usize)));
    let mut code: Vec<Stmt> = Vec::new();
    code.push(Stmt::CallGeneric(func, args));
    code.push(Stmt::Return(Op::Ssa(0)));
    assert(code_view(code@) =~= call_body(func, n).code);
    Body { nslots: n, code }
}

impl State {
    /// The integer that `func` gives for one value.
    pub open spec fn call_one(self, body: Rc<Body>, v: u32) -> (State, i64) {
        self.int_of(body, seq![Value(v)])
    }

    /// The integer that `func` gives for two integers, which are rooted meanwhile.
    #[verifier::opaque]
    pub open spec fn call_two(self, body: Rc<Body>, a: i64, b: i64) -> (State, i64) {
        let (s1, x) = self.box_int(a);
        let (s2, y) = s1.push_root(x).box_int(b);
        let (s3, r) = s2.push_root(y).int_of(body, seq![Value(x), Value(y)]);
        (s3.pop_roots(2), r)
    }
}

/// Calls `func` on one value.
fn call_one(rt: &mut Runtime, body: &Rc<Body>, v: Value) -> (r: i64)
    ensures
        (final(rt)@, r) == old(rt)@.call_one(*body, v.0),
{
    let args: Vec<Value> = vec![v];
    assert(args@ =~= seq![Value(v.0)]);
    run_int(rt, body, &args)
}

impl State {
    /// The integer that `body` gives for a boxed integer.
    pub open spec fn call_int(self, body: Rc<Body>, n: i64) -> (State, i64) {
        let (s, v) = self.box_int(n);
        s.call_one(body, v)
    }

    /// The integer that `body` gives for true.
    pub open spec fn call_true(self, body: Rc<Body>) -> (State, i64) {
        self.call_one(body, self.box_bool(true))
    }
}

/// Calls the classifying function on an `Int64`.
pub fn rj_call_classify_i64(rt: &mut Runtime, n: i64) -> (r: i64)
    ensures
        exists|t: State, body: Rc<Body>|
            ready(old(rt)@, t) && body_view(*body) == call_body(F_CLASSIFY, 1) && (final(rt)@, r)
                == #[trigger] t.call_int(body, n),
{
    ensure_init(rt);
    let ghost t = rt@;
    let body: Rc<Body> = Rc::new(generic_call_body(F_CLASSIFY, 1));
    let v: Value = box_int(rt, n);
    let r: i64 = call_one(rt, &body, v);
    assert((rt@, r) == t.call_int(body, n));
    r
}

/// Calls the classifying function on true.
pub fn rj_call_classify_bool(rt: &mut Runtime) -> (r: i64)
    ensures
        exists|t: State, body: Rc<Body>|
            ready(old(rt)@, t) && body_view(*body) == call_body(F_CLASSIFY, 1) && (final(rt)@, r)
                == #[trigger] t.call_true(body),
{
    ensure_init(rt);
    let ghost t = rt@;
    let body: Rc<Body> = Rc::new(generic_call_body(F_CLASSIFY, 1));
    let v: Value = box_bool(rt, true);
    let r: i64 = call_one(rt, &body, v);
    assert((rt@, r) == t.call_true(body));
    r
}

/// Calls the doubling function on an `Int64`.
pub fn rj_call_double(rt: &mut Runtime, n: i64) -> (r: i64)
    ensures
        exists|t: State, body: Rc<Body>|
            ready(old(rt)@, t) && body_view(*body) == call_body(F_DOUBLE, 1) && (final(rt)@, r)
                == #[trigger] t.call_int(body, n),
{
    ensure_init(rt);
    let ghost t = rt@;
    let body: Rc<Body> = Rc::new(generic_call_body(F_DOUBLE, 1));
    let v: Value = box_int(rt, n);
    let r: i64 = call_one(rt, &body, v);
    assert((rt@, r) == t.call_int(body, n));
    r
}

/// Calls the combining function on two `Int64`s.
pub fn rj_call_combine(rt: &mut Runtime, a: i64, b: i64) -> (r: i64)
    ensures
        exists|t: State, body: Rc<Body>|
            ready(old(rt)@, t) && body_view(*body) == call_body(F_COMBINE, 2) && (final(rt)@, r)
                == #[trigger] t.call_two(body, a, b),
{
    ensure_init(rt);
    let ghost t = rt@;
    let body: Rc<Body> = Rc::new(generic_call_body(F_COMBINE, 2));
    let x: Value = box_int(rt, a);
    rt.push_root(x.0);
    let y: Value = box_int(rt, b);
    rt.push_root(y.0);
    let args: Vec<Value> = vec![x, y];
    assert(args@ =~= seq![Value(x.0), Value(y.0)]);
    let r: i64 = run_int(rt, &body, &args);
    rt.pop_roots(2);
    proof {
        reveal(State::call_two);
        assert((rt@, r) == t.call_two(body, a, b));
    }
    r
}

/// The sum of `a` and `b`, times `c`.
pub open spec fn poly_code(a: i64, b: i64, c: i64) -> BodyV {
    BodyV {
        nslots: 0,
        code: seq![
            StmtV::Call(Builtin::Add, seq![Op::Int(a), Op::Int(b)]),
            StmtV::Call(Builtin::Mul, seq![Op::Ssa(0), Op::Int(c)]),
            StmtV::Return(Op::Ssa(1)),
        ],
    }
}

/// Builds the body that [`poly_code`] says.
fn poly_body(a: i64, b: i64, c: i64) -> (r: Body)
    ensures
        body_view(r) == poly_code(a, b, c),
{
    let mut code: Vec<Stmt> = Vec::new();
    code.push(Stmt::Call(Builtin::Add, pair(Op::Int(a), Op::Int(b))));
    code.push(Stmt::Call(Builtin::Mul, pair(Op::Ssa(0), Op::Int(c))));
    code.push(Stmt::Return(Op::Ssa(1)));
    assert(code_view(code@) =~= poly_code(a, b, c).code);
    Body { nslots: 0, code }
}

/// Interprets the body that [`poly_code`] says.
pub fn rj_interp_poly(rt: &mut Runtime, a: i64, b: i64, c: i64) -> (r: i64)
    ensures
        exists|t: State, body: Rc<Body>|
            ready(old(rt)@, t) && body_view(*body) == poly_code(a, b, c) && (final(rt)@, r)
                == #[trigger] t.int_of(body, Seq::empty()),
{
    ensure_init(rt);
    let ghost t = rt@;
    let body: Rc<Body> = Rc::new(poly_body(a, b, c));
    let args: Vec<Value> = Vec::new();
    assert(args@ =~= Seq::<Value>::empty());
    let r: i64 = run_int(rt, &body, &args);
    assert((rt@, r) == t.int_of(body, Seq::empty()));
    r
}

/// The sum of the integers from one up to `n`, in a loop.
pub open spec fn sum_to_code(n: i64) -> BodyV {
    BodyV {
        nslots: 2,
        code: seq![
            StmtV::Assign(0, Op::Int(0)),
            StmtV::Assign(1, Op::Int(1)),
            StmtV::Call(Builtin::Slt, seq![Op::Slot(1), Op::Int((n + 1) as i64)]),
            StmtV::GotoIfNot(Op::Ssa(2), 9),
            StmtV::Call(Builtin::Add, seq![Op::Slot(0), Op::Slot(1)]),
            StmtV::Assign(0, Op::Ssa(4)),
            StmtV::Call(Builtin::Add, seq![Op::Slot(1), Op::Int(1)]),
            StmtV::Assign(1, Op::Ssa(6)),
            StmtV::Goto(2),
            StmtV::Return(Op::Slot(0)),
        ],
    }
}

/// Builds the body that [`sum_to_code`] says.
fn sum_to_body(n: i64) -> (r: Body)
    requires
        n < i64::MAX,
    ensures
        body_view(r) == sum_to_code(n),
{
    let mut code: Vec<Stmt> = Vec::new();
    code.push(Stmt::Assign(0, Op::Int(0)));
    code.push(Stmt::Assign(1, Op::Int(1)));
    code.push(Stmt::Call(Builtin::Slt, pair(Op::Slot(1), Op::Int(n + 1))));
    code.push(Stmt::GotoIfNot(Op::Ssa(2), 9));
    code.push(Stmt::Call(Builtin::Add, pair(Op::Slot(0), Op::Slot(1))));
    code.push(Stmt::Assign(0, Op::Ssa(4)));
    code.push(Stmt::Call(Builtin::Add, pair(Op::Slot(1), Op::Int(1))));
    code.push(Stmt::Assign(1, Op::Ssa(6)));
    code.push(Stmt::Goto(2));
    code.push(Stmt::Return(Op::Slot(0)));
    assert(code_view(code@) =~= sum_to_code(n).code);
    Body { nslots: 2, code }
}

/// Interprets the body that [`sum_to_code`] says.
pub fn rj_interp_sum_to(rt: &mut Runtime, n: i64) -> (r: i64)
    requires
        n < i64::MAX,
    ensures
        exists|t: State, body: Rc<Body>|
            ready(old(rt)@, t) && body_view(*body) == sum_to_code(n) && (final(rt)@, r)
                == #[trigger] t.int_of(body, Seq::empty()),
{
    ensure_init(rt);
    let ghost t = rt@;
    let body: Rc<Body> = Rc::new(sum_to_body(n));
    let args: Vec<Value> = Vec::new();
    assert(args@ =~= Seq::<Value>::empty());
    let r: i64 = run_int(rt, &body, &args);
    assert((rt@, r) == t.int_of(body, Seq::empty()));
    r
}

/// The number of steps from `n` down to zero, in a loop.
pub open spec fn count_down_code(n: i64) -> BodyV {
    BodyV {
        nslots: 2,
        code: seq![
            StmtV::Assign(0, Op::Int(n)),
            StmtV::Assign(1, Op::Int(0)),
            StmtV::Call(Builtin::Eq, seq![Op::Slot(0), Op::Int(0)]),
            StmtV::GotoIfNot(Op::Ssa(2), 5),
            StmtV::Return(Op::Slot(1)),
            StmtV::Call(Builtin::Sub, seq![Op::Slot(0), Op::Int(1)]),
            StmtV::Assign(0, Op::Ssa(5)),
            StmtV::Call(Builtin::Add, seq![Op::Slot(1), Op::Int(1)]),
            StmtV::Assign(1, Op::Ssa(7)),
            StmtV::Goto(2),
        ],
    }
}

/// Builds the body that [`count_down_code`] says.
fn count_down_body(n: i64) -> (r: Body)
    ensures
        body_view(r) == count_down_code(n),
{
    let mut code: Vec<Stmt> = Vec::new();
    code.push(Stmt::Assign(0, Op::Int(n)));
    code.push(Stmt::Assign(1, Op::Int(0)));
    code.push(Stmt::Call(Builtin::Eq, pair(Op::Slot(0), Op::Int(0))));
    code.push(Stmt::GotoIfNot(Op::Ssa(2), 5));
    code.push(Stmt::Return(Op::Slot(1)));
    code.push(Stmt::Call(Builtin::Sub, pair(Op::Slot(0), Op::Int(1))));
    code.push(Stmt::Assign(0, Op::Ssa(5)));
    code.push(Stmt::Call(Builtin::Add, pair(Op::Slot(1), Op::Int(1))));
    code.push(Stmt::Assign(1, Op::Ssa(7)));
    code.push(Stmt::Goto(2));
    assert(code_view(code@) =~= count_down_code(n).code);
    Body { nslots: 2, code }
}

/// Interprets the body that [`count_down_code`] says.
pub fn rj_interp_count_down(rt: &mut Runtime, n: i64) -> (r: i64)
    ensures
        exists|t: State, body: Rc<Body>|
            ready(old(rt)@, t) && body_view(*body) == count_down_code(n) && (final(rt)@, r)
                == #[trigger] t.int_of(body, Seq::empty()),
{
    ensure_init(rt);
    let ghost t = rt@;
    let body: Rc<Body> = Rc::new(count_down_body(n));
    let args: Vec<Value> = Vec::new();
    assert(args@ =~= Seq::<Value>::empty());
    let r: i64 = run_int(rt, &body, &args);
    assert((rt@, r) == t.int_of(body, Seq::empty()));
    r
}

/// The number of bytes taken from the region.
pub fn rj_heap_used(rt: &Runtime) -> (r: u32)
    ensures
        r == rt@.region.top,
{
    rt.region.top
}

/// The number of live heap objects.
pub fn rj_live_objects(rt: &Runtime) -> (r: u64)
    ensures
        r == rt@.stats.live,
{
    gc::live_objects(rt)
}

/// The number of roots on the shadow stack.
pub fn rj_root_count(rt: &Runtime) -> (r: usize)
    ensures
        r == rt@.roots.len(),
{
    gc::root_count(rt)
}

/// The core type with an identifier.
pub fn rj_builtin_type(rt: &Runtime, type_id: u32) -> (r: u32)
    ensures
        r == rt@.builtin(type_id),
{
    access::builtin(rt, type_id)
}

/// The value `nothing`.
pub fn rj_nothing(rt: &Runtime) -> (r: u32)
    ensures
        r == rt@.instance_of(rt@.builtin(id::NOTHING)),
{
    access::nothing_instance(rt)
}

/// The type of the value at `v`.
pub fn rj_typeof(rt: &Runtime, v: u32) -> (r: u32)
    ensures
        r == rt@.tag(v),
{
    type_of(rt, Value(v))
}

/// The supertype of the type at `t`.
pub fn rj_supertype(rt: &Runtime, t: u32) -> (r: u32)
    ensures
        r == rt@.supertype(t),
{
    access::supertype(rt, t)
}

/// The size of the instances of the type at `t`.
pub fn rj_datatype_size(rt: &Runtime, t: u32) -> (r: u32)
    ensures
        r == rt@.size_of(t),
{
    access::size_of(rt, t)
}

/// The symbol that names the type at `t`.
pub fn rj_type_name(rt: &Runtime, t: u32) -> (r: u32)
    ensures
        r == rt@.type_sym(t),
{
    access::type_sym(rt, t)
}

/// The byte length of the symbol at `s`.
pub fn rj_symbol_len(rt: &Runtime, s: u32) -> (r: u32)
    ensures
        r == rt@.sym_len(s),
{
    symbol::len(rt, s)
}

/// Runs a full collection: the number of objects reclaimed.
pub fn rj_gc_collect(rt: &mut Runtime) -> (r: u64)
    ensures
        exists|t: State|
            ready(old(rt)@, t) && final(rt)@ == #[trigger] t.collect(true) && r == t.reclaimed(
                true,
            ),
{
    ensure_init(rt);
    let ghost t = rt@;
    let r: u64 = gc::collect_full(rt);
    assert(rt@ == t.collect(true));
    r
}

/// Boxes `n` integers and drops them.
pub fn rj_alloc_garbage(rt: &mut Runtime, n: u32)
    ensures
        exists|t: State| ready(old(rt)@, t) && final(rt)@ == #[trigger] t.garbage(0, n as int),
{
    ensure_init(rt);
    let ghost t = rt@;
    let mut i: u32 = 0;
    while i < n
        invariant
            i <= n,
            t.garbage(0, n as int) == rt@.garbage(i as int, n as int),
        decreases n - i,
    {
        let _ = box_int(rt, i as i64);
        i = i + 1;
    }
    assert(rt@ == t.garbage(0, n as int));
}

/// Whether the type at `a` is a subtype of the type at `b`: one or zero.
pub fn rj_subtype(rt: &mut Runtime, a: u32, b: u32) -> (r: u32)
    ensures
        (final(rt)@, r == 1) == old(rt)@.subtype(a, b, access::MAX_NESTING as nat),
        r <= 1,
{
    if types::issubtype(rt, a, b) {
        1
    } else {
        0
    }
}

/// Whether two values are identical: one or zero.
pub fn rj_egal(rt: &mut Runtime, a: u32, b: u32) -> (r: u32)
    ensures
        ready(old(rt)@, final(rt)@),
        r == if final(rt)@.egal(a, b, access::MAX_NESTING as nat) {
            1u32
        } else {
            0u32
        },
{
    ensure_init(rt);
    if egal::egal(rt, Value(a), Value(b)) {
        1
    } else {
        0
    }
}

/// Whether two types are structurally equal: one or zero.
pub fn rj_types_egal(rt: &mut Runtime, a: u32, b: u32) -> (r: u32)
    ensures
        ready(old(rt)@, final(rt)@),
        r == if final(rt)@.egal_types(a, b, Seq::empty(), false, access::MAX_NESTING as nat) {
            1u32
        } else {
            0u32
        },
{
    ensure_init(rt);
    if egal::types_egal(rt, a, b) {
        1
    } else {
        0
    }
}

/// The empty tuple type.
pub fn rj_tuple_type0(rt: &mut Runtime) -> (r: u32)
    ensures
        exists|t: State|
            #[trigger] ready(old(rt)@, t) && (final(rt)@, r) == t.tuple_type(Seq::empty()),
{
    ensure_init(rt);
    let ghost t = rt@;
    let elems: Vec<u32> = Vec::new();
    assert(elems@ =~= Seq::<u32>::empty());
    let r: u32 = types::tuple_type(rt, &elems);
    assert((rt@, r) == t.tuple_type(Seq::empty()));
    r
}

/// The tuple type of one type.
pub fn rj_tuple_type1(rt: &mut Runtime, a: u32) -> (r: u32)
    ensures
        exists|t: State|
            #[trigger] ready(old(rt)@, t) && (final(rt)@, r) == t.tuple_type(seq![a]),
{
    ensure_init(rt);
    let ghost t = rt@;
    let elems: Vec<u32> = vec![a];
    assert(elems@ =~= seq![a]);
    let r: u32 = types::tuple_type(rt, &elems);
    assert((rt@, r) == t.tuple_type(seq![a]));
    r
}

/// The tuple type of two types.
pub fn rj_tuple_type2(rt: &mut Runtime, a: u32, b: u32) -> (r: u32)
    ensures
        exists|t: State|
            #[trigger] ready(old(rt)@, t) && (final(rt)@, r) == t.tuple_type(seq![a, b]),
{
    ensure_init(rt);
    let ghost t = rt@;
    let elems: Vec<u32> = vec![a, b];
    assert(elems@ =~= seq![a, b]);
    let r: u32 = types::tuple_type(rt, &elems);
    assert((rt@, r) == t.tuple_type(seq![a, b]));
    r
}

/// The tuple type of three types.
pub fn rj_tuple_type3(rt: &mut Runtime, a: u32, b: u32, c: u32) -> (r: u32)
    ensures
        exists|t: State|
            #[trigger] ready(old(rt)@, t) && (final(rt)@, r) == t.tuple_type(seq![a, b, c]),
{
    ensure_init(rt);
    let ghost t = rt@;
    let elems: Vec<u32> = vec![a, b, c];
    assert(elems@ =~= seq![a, b, c]);
    let r: u32 = types::tuple_type(rt, &elems);
    assert((rt@, r) == t.tuple_type(seq![a, b, c]));
    r
}

/// An unbounded trailing repetition of `elem`.
pub fn rj_vararg(rt: &mut Runtime, elem: u32) -> (r: u32)
    ensures
        exists|t: State|
            #[trigger] ready(old(rt)@, t) && (final(rt)@, r) == t.vararg(elem, NULL),
{
    ensure_init(rt);
    let ghost t = rt@;
    let r: u32 = types::vararg_type(rt, elem);
    assert((rt@, r) == t.vararg(elem, NULL));
    r
}

/// The union of two types.
pub fn rj_union_type(rt: &mut Runtime, a: u32, b: u32) -> (r: u32)
    ensures
        exists|t: State|
            #[trigger] ready(old(rt)@, t) && (final(rt)@, r) == t.union_all(
                seq![a, b],
                access::MAX_NESTING as nat,
            ),
{
    ensure_init(rt);
    let ghost t = rt@;
    let r: u32 = types::union_type(rt, a, b);
    assert((rt@, r) == t.union_all(seq![a, b], access::MAX_NESTING as nat));
    r
}

/// The one-parameter type of `elem`.
pub fn rj_box_type(rt: &mut Runtime, elem: u32) -> (r: u32)
    ensures
        exists|t: State|
            #[trigger] ready(old(rt)@, t) && (final(rt)@, r) == t.box_type(elem),
{
    ensure_init(rt);
    let ghost t = rt@;
    let r: u32 = types::box_type(rt, elem);
    assert((rt@, r) == t.box_type(elem));
    r
}

/// The two-parameter type of `a` and `b`.
pub fn rj_pair_type(rt: &mut Runtime, a: u32, b: u32) -> (r: u32)
    ensures
        exists|t: State|
            #[trigger] ready(old(rt)@, t) && (final(rt)@, r) == t.pair_type(a, b),
{
    ensure_init(rt);
    let ghost t = rt@;
    let r: u32 = types::pair_type(rt, a, b);
    assert((rt@, r) == t.pair_type(a, b));
    r
}

/// The body of the `where` type at `u` with its variable replaced by `p`.
pub fn rj_instantiate(rt: &mut Runtime, u: u32, p: u32) -> (r: u32)
    ensures
        exists|t: State|
            #[trigger] ready(old(rt)@, t) && (final(rt)@, r) == t.instantiate(u, p),
{
    ensure_init(rt);
    let ghost t = rt@;
    let r: u32 = instantiate_unionall(rt, u, p);
    assert((rt@, r) == t.instantiate(u, p));
    r
}

impl State {
    /// A type variable named `T`; a zero bound stands for the bottom type or for `Any`.
    pub open spec fn plain_typevar(self, lb: u32, ub: u32) -> (State, u32) {
        self.make_typevar(
            crate::bytes::utf8("T"),
            if lb == 0 {
                self.builtin(id::BOTTOM)
            } else {
                lb
            },
            if ub == 0 {
                self.builtin(id::ANY)
            } else {
                ub
            },
        )
    }
}

/// A type variable; a zero bound stands for the bottom type or for `Any`.
pub fn rj_typevar(rt: &mut Runtime, lb: u32, ub: u32) -> (r: u32)
    ensures
        exists|t: State|
            #[trigger] ready(old(rt)@, t) && (final(rt)@, r) == t.plain_typevar(lb, ub),
{
    ensure_init(rt);
    let ghost t = rt@;
    let low: u32 = if lb == 0 {
        access::builtin(rt, id::BOTTOM)
    } else {
        lb
    };
    let high: u32 = if ub == 0 {
        access::builtin(rt, id::ANY)
    } else {
        ub
    };
    let r: u32 = types::make_typevar(rt, "T", low, high);
    assert((rt@, r) == t.plain_typevar(lb, ub));
    r
}

/// The `where` type of a variable and a body.
pub fn rj_unionall(rt: &mut Runtime, var: u32, body: u32) -> (r: u32)
    ensures
        exists|t: State|
            #[trigger] ready(old(rt)@, t) && (final(rt)@, r) == t.unionall_type(var, body),
{
    ensure_init(rt);
    let ghost t = rt@;
    let r: u32 = types::unionall_type(rt, var, body);
    assert((rt@, r) == t.unionall_type(var, body));
    r
}

/// Boxes two integers, adds them, boxes the sum and reads it back; all three are
/// rooted meanwhile.
pub fn rj_demo_add(rt: &mut Runtime, a: i64, b: i64) -> (r: i64)
    ensures
        exists|t: State|
            #[trigger] ready(old(rt)@, t) && (final(rt)@, r) == t.demo_add(a, b),
{
    ensure_init(rt);
    let ghost t = rt@;
    let x: Value = box_int(rt, a);
    rt.push_root(x.0);
    let y: Value = box_int(rt, b);
    rt.push_root(y.0);
    let sum: i64 = add_int(unbox_int(rt, x), unbox_int(rt, y));
    let z: Value = box_int(rt, sum);
    rt.push_root(z.0);
    let r: i64 = unbox_int(rt, z);
    rt.pop_roots(3);
    proof {
        reveal(State::demo_add);
        assert((rt@, r) == t.demo_add(a, b));
    }
    r
}

/// Whether some bytes are UTF-8. `str::from_utf8` of the standard library gives a
/// string slice exactly for those.
#[verifier::external_body]
fn is_utf8(b: &[u8]) -> (r: bool)
    ensures
        r == vstd::utf8::valid_utf8(b@),
{
    core::str::from_utf8(b).is_ok()
}

/// Starts the program of a source text: none where the text is not UTF-8 or has no
/// program. `floats` holds the bits of its floating-point literals in order.
pub fn begin_eval(rt: &mut Runtime, bytes: &[u8], floats: &Vec<u64>) -> (r: Option<Machine>)
    ensures
        exists|t: State|
            ready(old(rt)@, t) && if !vstd::utf8::valid_utf8(bytes@) {
                final(rt)@ == t && r is None
            } else {
                match #[trigger] t.lower_source(bytes@, floats@) {
                    (s, Err(_)) => final(rt)@ == s && r is None,
                    (s, Ok(v)) => r is Some && exists|body: Rc<Body>|
                        body_view(*body) == v && (final(rt)@, r->0@) == #[trigger] s.begin(
                            body,
                            Seq::empty(),
                            Seq::empty(),
                        ),
                }
            },
{
    ensure_init(rt);
    let ghost t = rt@;
    let ghost lowered = t.lower_source(bytes@, floats@);
    if !is_utf8(bytes) {
        return None;
    }
    match eval_source(rt, bytes, floats) {
        Ok(m) => Some(m),
        Err(_) => None,
    }
}

/// Reads the integer that a program returned; zero where there is none or it did not
/// return.
pub fn rj_eval(rt: &mut Runtime, done: Option<Machine>) -> (r: i64)
    ensures
        match done {
            Some(m) => final(rt)@ == old(rt)@.abandon(m@) && r == match m@.status {
                Status::Returned(v) => old(rt)@.unbox_int(v.0),
                _ => 0,
            },
            None => final(rt)@ == old(rt)@ && r == 0,
        },
{
    match done {
        Some(m) => {
            let r: i64 = match m.status {
                Status::Returned(v) => unbox_int(rt, v),
                _ => 0,
            };
            drop_program(rt, m);
            r
        },
        None => 0,
    }
}

/// Reads the type of the value that a program returned; zero where there is none.
pub fn rj_eval_typeof(rt: &mut Runtime, done: Option<Machine>) -> (r: u32)
    ensures
        match done {
            Some(m) => final(rt)@ == old(rt)@.abandon(m@) && r == match m@.status {
                Status::Returned(v) => old(rt)@.tag(v.0),
                _ => 0,
            },
            None => final(rt)@ == old(rt)@ && r == 0,
        },
{
    match done {
        Some(m) => {
            let r: u32 = match m.status {
                Status::Returned(v) => type_of(rt, v),
                _ => 0,
            };
            drop_program(rt, m);
            r
        },
        None => 0,
    }
}

/// Reads the bits of the double that a program returned; zero where there is none.
pub fn rj_eval_f64(rt: &mut Runtime, done: Option<Machine>) -> (r: u64)
    ensures
        match done {
            Some(m) => final(rt)@ == old(rt)@.abandon(m@) && r == match m@.status {
                Status::Returned(v) => old(rt)@.word64(v.0),
                _ => 0,
            },
            None => final(rt)@ == old(rt)@ && r == 0,
        },
{
    match done {
        Some(m) => {
            let r: u64 = match m.status {
                Status::Returned(v) => unbox_float64(rt, v),
                _ => 0,
            };
            drop_program(rt, m);
            r
        },
        None => 0,
    }
}

} // verus!
