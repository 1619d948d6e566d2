use std::rc::Rc;

use ruju::abi::{
    rj_call_classify_bool, rj_call_classify_i64, rj_call_combine, rj_call_double, rj_init,
    rj_interp_count_down, rj_interp_poly, rj_interp_sum_to, F_CLASSIFY, F_COMBINE, F_DOUBLE,
};
use ruju::access;
use ruju::frontend::eval_source;
use ruju::gc;
use ruju::gc::Rooted;
use ruju::id;
use ruju::interp::{eval, invoke, resume_float, run, Machine};
use ruju::interp_spec::{FloatCall, FloatOp, Num, Status};
use ruju::ir::{Body, Builtin, Op, Stmt};
use ruju::lexer::float_literals;
use ruju::object::type_of;
use ruju::state::{Runtime, Value};
use ruju::types;
use ruju::value;
use ruju::value::{box_int, unbox_int};

fn started() -> Runtime {
    let mut rt = Runtime::new();
    rj_init(&mut rt).unwrap();
    rt
}

fn number(n: Num) -> f64 {
    match n {
        Num::Bits(b) => f64::from_bits(b),
        Num::Int(i) => i as f64,
    }
}

fn float_result(c: FloatCall) -> u64 {
    let (a, b) = (number(c.a), number(c.b));
    match c.op {
        FloatOp::Add => (a + b).to_bits(),
        FloatOp::Sub => (a - b).to_bits(),
        FloatOp::Mul => (a * b).to_bits(),
        FloatOp::Div => (a / b).to_bits(),
        FloatOp::Rem => (a % b).to_bits(),
        FloatOp::Lt => (a < b) as u64,
        FloatOp::Le => (a <= b) as u64,
        FloatOp::Eq => (a == b) as u64,
    }
}

// Runs a program to its end and answers its floating-point requests.
fn finish(rt: &mut Runtime, mut m: Machine) -> Result<Value, Value> {
    loop {
        match m.status {
            Status::Returned(v) => return Ok(v),
            Status::Raised(e) => return Err(e),
            Status::Float(c) => {
                resume_float(rt, &mut m, float_result(c));
                run(rt, &mut m, u64::MAX);
            }
            Status::Running => run(rt, &mut m, u64::MAX),
            _ => panic!("the program cannot go on"),
        }
    }
}

// Evaluates source; an error of any kind is `None`.
fn eval_text(rt: &mut Runtime, src: &str) -> Option<Value> {
    let literals = float_literals(src.as_bytes()).ok()?;
    let floats: Vec<u64> = literals
        .iter()
        .map(|t| String::from_utf8(t.clone()).unwrap().parse::<f64>().unwrap().to_bits())
        .collect();
    let m = eval_source(rt, src.as_bytes(), &floats).ok()?;
    finish(rt, m).ok()
}

fn run_int(rt: &mut Runtime, src: &str) -> i64 {
    let v = eval_text(rt, src).unwrap();
    unbox_int(rt, v)
}

fn run_float(rt: &mut Runtime, src: &str) -> f64 {
    let v = eval_text(rt, src).unwrap();
    f64::from_bits(value::unbox_float64(rt, v))
}

fn run_bool(rt: &mut Runtime, src: &str) -> bool {
    let v = eval_text(rt, src).unwrap();
    value::unbox_bool(rt, v)
}

#[test]
fn interpreter_try_catch_transfers_control() {
    let rt = &mut started();
    // try; slot0 = a ÷ b; catch; return 999; end; return slot0
    let mk = |a: i64, b: i64| Body {
        nslots: 1,
        code: vec![
            Stmt::Enter(5),                                          // 0: catch at ip 5
            Stmt::Call(Builtin::IDiv, vec![Op::Int(a), Op::Int(b)]), // 1: throws if b==0
            Stmt::Assign(0, Op::Ssa(1)),                             // 2: slot0 = quotient
            Stmt::Leave(1),                                          // 3: normal: pop handler
            Stmt::Return(Op::Slot(0)),                               // 4: normal return
            Stmt::Return(Op::Int(999)),                              // 5: catch: recover
        ],
    };
    // b == 0 raises DivideError inside the try; control lands in the catch.
    let m = eval(rt, &Rc::new(mk(1, 0)));
    let caught = finish(rt, m).expect("catch recovers");
    assert_eq!(unbox_int(rt, caught), 999);
    // No throw: Leave pops the handler and the normal path returns the quotient.
    let m = eval(rt, &Rc::new(mk(6, 2)));
    let normal = finish(rt, m).expect("normal path");
    assert_eq!(unbox_int(rt, normal), 3);
    assert_eq!(gc::root_count(rt), 0, "roots released after eval");
}

#[test]
fn frontend_runs_julia_source() {
    let rt = &mut started();

    // Arithmetic with precedence and parentheses.
    assert_eq!(run_int(rt, "1 + 2 * 3"), 7);
    assert_eq!(run_int(rt, "(1 + 2) * 3"), 9);
    assert_eq!(run_int(rt, "10 - 3 - 2"), 5); // left-associative
    assert_eq!(run_int(rt, "-(3 + 4)"), -7); // unary minus

    // Variables and assignment; the program returns its last expression.
    assert_eq!(run_int(rt, "x = 10\ny = 20\nx + y"), 30);

    // if / elseif / else selecting a branch.
    assert_eq!(
        run_int(rt, "x = 5\nif x < 0\ns = 1\nelseif x < 10\ns = 2\nelse\ns = 3\nend\ns"),
        2
    );
    assert_eq!(run_int(rt, "x = 50\nif x < 10\ns = 1\nelse\ns = 2\nend\ns"), 2);

    // A real loop from source: sum(1:100).
    assert_eq!(
        run_int(rt, "acc = 0\ni = 1\nwhile i <= 100\nacc = acc + i\ni = i + 1\nend\nacc"),
        5050
    );

    // `===` from source goes through the egal builtin, not numeric `==`.
    assert!(run_bool(rt, "x = 7\nx === 7"));
    assert!(!run_bool(rt, "1 === 2"));
    assert!(run_bool(rt, "1.5 === 1.5"));
    assert!(!run_bool(rt, "1 === 1.5")); // different type tags, never equal
}

// Intrinsics breadth from source: ÷ % / bitwise shifts, precedence, and
// the DivideError path.
#[test]
fn frontend_runs_integer_and_float_operators() {
    let rt = &mut started();

    assert_eq!(run_int(rt, "7 \u{f7} 2"), 3); // ÷ truncates
    assert_eq!(run_int(rt, "-7 \u{f7} 2"), -3);
    assert_eq!(run_int(rt, "7 % 2"), 1);
    assert_eq!(run_int(rt, "-7 % 2"), -1); // sign of the dividend
    assert_eq!(run_int(rt, "6 & 3"), 2);
    assert_eq!(run_int(rt, "6 | 3"), 7);
    assert_eq!(run_int(rt, "6 \u{22bb} 3"), 5); // ⊻ xor
    assert_eq!(run_int(rt, "1 << 10"), 1024);
    assert_eq!(run_int(rt, "-8 >> 1"), -4); // arithmetic: sign-fill
    assert_eq!(run_int(rt, "-8 >>> 60"), 15); // logical: zero-fill
    assert_eq!(run_int(rt, "1 << 64"), 0); // count >= width

    // Precedence: `&` multiplicative, `|` additive, shifts tighter than `*`.
    assert_eq!(run_int(rt, "4 | 2 + 1"), 7); // 4 | (2+1)
    assert_eq!(run_int(rt, "6 & 3 + 1"), 3); // (6 & 3) + 1 — & binds tighter than +
    assert_eq!(run_int(rt, "2 * 1 << 3"), 16); // 2 * (1<<3)

    // `/` always produces Float64, converting integer operands.
    assert_eq!(run_float(rt, "1 / 2"), 0.5);
    assert_eq!(run_float(rt, "7.0 / 2.0"), 3.5);
    assert_eq!(run_float(rt, "5.5 % 2.0"), 1.5); // float % is fmod

    // DivideError surfaces as an eval error.
    assert!(eval_text(rt, "1 \u{f7} 0").is_none());
    assert!(eval_text(rt, "x = 5\nx % 0").is_none());
}

// `struct` syntax, constructor calls, and field access from source through the
// front-end and interpreter.
#[test]
fn frontend_runs_struct_source() {
    let rt = &mut started();

    // Immutable struct: typed fields inline; construct and read.
    assert_eq!(
        run_int(rt, "struct Point\nx::Int64\ny::Int64\nend\np = Point(3, 4)\np.x * p.x + p.y * p.y"),
        25
    );
    // Mutable struct: field assignment, used in a loop.
    assert_eq!(
        run_int(rt, "mutable struct Counter\nn::Int64\nend\nc = Counter(0)\ni = 1\nwhile i <= 10\nc.n = c.n + i\ni = i + 1\nend\nc.n"),
        55
    );
    // Untyped fields are Any (boxed references); floats flow through.
    assert_eq!(
        run_float(rt, "mutable struct Box2\nv\nend\nb = Box2(1.5)\nb.v = b.v * 2.0\nb.v"),
        3.0
    );
    // Nested structs and chained field access.
    assert_eq!(
        run_int(rt, "struct Inner\nk::Int64\nend\nstruct Outer\ni::Inner\nend\no = Outer(Inner(42))\no.i.k"),
        42
    );
    // Redefinition with identical shape is reuse; different shape errors.
    assert_eq!(
        run_int(rt, "struct Pt2\na::Int64\nend\nstruct Pt2\na::Int64\nend\nPt2(7).a"),
        7
    );
    assert!(eval_text(rt, "struct Pt3\na::Int64\nend\nstruct Pt3\nb::Int64\nend").is_none());
    // setfield! on an immutable struct errors; unknown fields error.
    assert!(eval_text(rt, "struct Frozen\nv::Int64\nend\nf = Frozen(1)\nf.v = 2").is_none());
    assert!(eval_text(rt, "struct One\na::Int64\nend\nOne(1).b").is_none());
    // Construction type-checks against declared field types.
    assert!(eval_text(rt, "struct TypedF\na::Int64\nend\nTypedF(1.5)").is_none());
    // === on mutable struct values is identity.
    assert!(run_bool(rt, "mutable struct MRef\nv::Int64\nend\nm = MRef(1)\nm === m"));
}

#[test]
fn frontend_runs_float_arithmetic() {
    let rt = &mut started();

    // Float literals, the typed intrinsics, and precedence.
    assert_eq!(run_float(rt, "1.5 + 2.5"), 4.0);
    assert_eq!(run_float(rt, "2.0 * 3.0"), 6.0);
    assert_eq!(run_float(rt, "1.0 + 2.0 * 3.0"), 7.0);
    assert_eq!(run_float(rt, "10.0 - 3.0 - 2.0"), 5.0);

    // A float loop (float comparison in the condition).
    assert_eq!(run_float(rt, "x = 0.0\nwhile x < 3.0\nx = x + 1.0\nend\nx"), 3.0);

    // The result is a Float64, and integer source still yields an Int64.
    let v = eval_text(rt, "1.5 + 1.5").unwrap();
    assert_eq!(type_of(rt, v), access::builtin(rt, id::FLOAT64));
    let v = eval_text(rt, "2 + 3").unwrap();
    assert_eq!(type_of(rt, v), access::builtin(rt, id::INT64));
}

#[test]
fn multiple_dispatch_selects_the_most_specific_method() {
    let rt = &mut started();
    fn call(rt: &mut Runtime, func: u32, args: &[Value]) -> i64 {
        let m = invoke(rt, func, &args.to_vec());
        let v = finish(rt, m).unwrap();
        unbox_int(rt, v)
    }

    // classify: Int64 and Bool beat the abstract Integer overload.
    let v = box_int(rt, 7);
    let xi = Rooted::new(rt, v);
    let xv = xi.get(rt);
    assert_eq!(call(rt, F_CLASSIFY, &[xv]), 20);
    let v = value::box_bool(rt, true);
    let xb = Rooted::new(rt, v);
    let xv = xb.get(rt);
    assert_eq!(call(rt, F_CLASSIFY, &[xv]), 30);

    // double uses its argument: 21 + 21 = 42.
    let v = box_int(rt, 21);
    let x = Rooted::new(rt, v);
    let xv = x.get(rt);
    assert_eq!(call(rt, F_DOUBLE, &[xv]), 42);

    // combine: two-argument tuple dispatch, with partial applicability.
    let v = box_int(rt, 1);
    let a = Rooted::new(rt, v);
    let v = box_int(rt, 2);
    let b = Rooted::new(rt, v);
    let (av, bv) = (a.get(rt), b.get(rt));
    assert_eq!(call(rt, F_COMBINE, &[av, bv]), 2); // (Int64,Int64)
    // Tuple{Bool,Int64}: Bool is not <: Int64, so only (Integer,Integer) applies.
    let v = value::box_bool(rt, true);
    let bb = Rooted::new(rt, v);
    let bbv = bb.get(rt);
    assert_eq!(call(rt, F_COMBINE, &[bbv, bv]), 1);

    // Same selection, driven through the interpreter's CallGeneric path.
    assert_eq!(rj_call_classify_i64(rt, 7), 20);
    assert_eq!(rj_call_classify_bool(rt), 30);
    assert_eq!(rj_call_double(rt, 21), 42);
    assert_eq!(rj_call_combine(rt, 1, 2), 2);

    // Methods (their tuple signatures) survive collection.
    for i in 0..50 {
        let _ = box_int(rt, i);
    }
    gc::collect(rt);
    assert_eq!(rj_call_classify_i64(rt, 7), 20);
}

#[test]
fn interpreter_runs_lowered_ir() {
    let rt = &mut started();
    // Straight-line: (a + b) * c.
    assert_eq!(rj_interp_poly(rt, 2, 3, 4), 20);
    assert_eq!(rj_interp_poly(rt, -1, 1, 100), 0);
    // Loop with control flow: sum(1:n).
    assert_eq!(rj_interp_sum_to(rt, 5), 15);
    assert_eq!(rj_interp_sum_to(rt, 100), 5050);
    assert_eq!(rj_interp_sum_to(rt, 1), 1);
    assert_eq!(rj_interp_sum_to(rt, 0), 0); // loop body never executes
    // Countdown loop (subtraction + equality).
    assert_eq!(rj_interp_count_down(rt, 7), 7);
    assert_eq!(rj_interp_count_down(rt, 0), 0);
    assert_eq!(gc::root_count(rt), 0, "interpreter frames must be released LIFO");
}

#[test]
fn interpreter_churns_the_collector_safely() {
    let rt = &mut started();
    // A survivor rooted across an interpreter run that allocates heavily.
    let v = box_int(rt, 777);
    let survivor = Rooted::new(rt, v);
    let before = gc::live_objects(rt);
    assert_eq!(rj_interp_sum_to(rt, 200), 20100); // ~800 boxed allocations
    assert!(gc::live_objects(rt) > before, "the interpreter produced garbage");

    // Reclaim it; the survivor and the type graph remain intact.
    gc::collect(rt);
    assert_eq!(unbox_int(rt, survivor.get(rt)), 777);
    let (a, b) = (access::builtin(rt, id::INT64), access::builtin(rt, id::NUMBER));
    assert!(types::issubtype(rt, a, b));
    // A fresh run is still correct after collection.
    assert_eq!(rj_interp_sum_to(rt, 10), 55);
}
