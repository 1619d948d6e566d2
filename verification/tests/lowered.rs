use ruju::abi::rj_init;
use ruju::access;
use ruju::errors;
use ruju::frontend::lower_source;
use ruju::gc;
use ruju::id;
use ruju::interp::{resume_float, run};
use ruju::interp_spec::{FloatOp, Num, Status};
use ruju::ir::{Op, Stmt};
use ruju::lexer::{float_literals, lex};
use ruju::loader::{load_and_eval, parse, proceed};
use ruju::module::{get_global, main_offset, set_global};
use ruju::prelude::install_prelude;
use ruju::state::{Runtime, Value};
use ruju::symbol;
use ruju::value::{box_int, unbox_float64, unbox_int};

fn started() -> Runtime {
    let mut rt = Runtime::new();
    rj_init(&mut rt).unwrap();
    install_prelude(&mut rt).unwrap();
    rt
}

fn load(rt: &mut Runtime, src: &str) -> Result<Value, Value> {
    let p = load_and_eval(rt, src.as_bytes())?;
    match p.machine.status {
        Status::Returned(v) => Ok(v),
        Status::Raised(e) => Err(e),
        _ => panic!("the program paused"),
    }
}

fn fault(rt: &mut Runtime, src: &str) -> String {
    String::from_utf8(parse(rt, src.as_bytes()).err().unwrap()).unwrap()
}

#[test]
fn lowered_code_calls_operators_by_name() {
    let rt = &mut started();
    let v = load(
        rt,
        "RUJU_LOWERED 1\n# a comment\n\nthunk 1 4\n  assigncall 0 global:+ int:2 int:3\n\
         call global:* slot:0 int:7\n value ssa:1\nreturn ssa:1\n",
    )
    .unwrap();
    assert_eq!(unbox_int(rt, v), 35);
    assert_eq!(gc::root_count(rt), 0);
}

#[test]
fn lowered_code_defines_methods() {
    let rt = &mut started();
    let v = load(
        rt,
        "RUJU_LOWERED 1\nthunk 0 7\nmethod1 twice\ncall global:Typeof ssa:0\n\
         call global:svec ssa:1 global:Any\n\
         call global:svec\n\
         call global:svec ssa:2 ssa:3 nothing\n\
         method3 ssa:0 ssa:4 1 2\n call global:+ slot:0 slot:0\n return ssa:0\n\
         return nothing\n\
         thunk 0 2\ncall global:twice int:21\nreturn ssa:0\n",
    );
    match v {
        Ok(v) => assert_eq!(unbox_int(rt, v), 42),
        Err(e) => panic!("{}", String::from_utf8(errors::format(rt, e)).unwrap()),
    }
}

#[test]
fn lowered_code_handles_exceptions() {
    let rt = &mut started();
    let v = load(
        rt,
        "RUJU_LOWERED 1\nthunk 1 6\nenter 4\ncall global:÷ int:1 int:0\nleave 1\nreturn ssa:1\n\
         assigncaught 0\nreturn slot:0\n",
    )
    .unwrap();
    assert_eq!(v.0, access::instance_of(rt, access::builtin(rt, id::DIVIDEERROR)));
    let v = load(rt, "RUJU_LOWERED 1\nthunk 0 2\ncall global:% int:1 int:0\nreturn ssa:0\n");
    assert_eq!(v.err().unwrap().0, errors::divide_error(rt).0);
}

#[test]
fn lowered_floats_pause_for_the_host() {
    let rt = &mut started();
    let mut p = load_and_eval(
        rt,
        b"RUJU_LOWERED 1\nthunk 0 2\ncall global:+ f64:3ff8000000000000 f64:4004000000000000\n\
          return ssa:0\nthunk 0 1\nreturn int:9\n",
    )
    .ok()
    .unwrap();
    match p.machine.status {
        Status::Float(c) => {
            assert!(c.op == FloatOp::Add);
            assert!(c.a == Num::Bits(1.5f64.to_bits()) && c.b == Num::Bits(2.5f64.to_bits()));
        }
        _ => panic!("no request"),
    }
    resume_float(rt, &mut p.machine, 4.0f64.to_bits());
    run(rt, &mut p.machine, u64::MAX);
    match p.machine.status {
        Status::Returned(v) => assert_eq!(f64::from_bits(unbox_float64(rt, v)), 4.0),
        _ => panic!("no value"),
    }
    proceed(rt, &mut p);
    match p.machine.status {
        Status::Returned(v) => assert_eq!(unbox_int(rt, v), 9),
        _ => panic!("no value"),
    }
}

#[test]
fn lowered_format_errors_are_told() {
    let rt = &mut started();
    assert_eq!(fault(rt, "  \n# only a comment\n"), "lowered format: empty input");
    assert_eq!(
        fault(rt, "RUJU_LOWERED 2\n"),
        "lowered format: bad header `RUJU_LOWERED 2` (expected RUJU_LOWERED 1)"
    );
    assert_eq!(
        fault(rt, "RUJU_LOWERED 1\nthink 0 0\n"),
        "lowered format: line 2: expected `thunk <nslots> <nstmts>`"
    );
    assert_eq!(fault(rt, "RUJU_LOWERED 1\nthunk x 0\n"), "lowered format: line 2: bad nslots");
    assert_eq!(fault(rt, "RUJU_LOWERED 1\nthunk 0 -1\n"), "lowered format: line 2: bad nstmts");
    let body = |s: &str| format!("RUJU_LOWERED 1\nthunk 0 1\n{s}\n");
    let cases = [
        ("", "unexpected end of input"),
        ("value", "wrong operand count"),
        ("value ssa:x", "bad ssa"),
        ("value slot:", "bad slot"),
        ("value int:9223372036854775808", "bad int"),
        ("value f64:xyz", "bad f64"),
        ("value what:1", "unknown operand `what:1`"),
        ("assign x int:1", "bad slot"),
        ("assigncall", "missing slot"),
        ("goto x", "bad target"),
        ("leave x", "bad count"),
        ("method3 nothing nothing 0 x", "bad nstmts"),
        ("jump 1", "unknown statement `jump`"),
    ];
    for (line, msg) in cases {
        assert_eq!(fault(rt, &body(line)), format!("lowered format: line 3: {msg}"));
    }
    // The loader raises the message as an error exception.
    let e = load_and_eval(rt, b"").err().unwrap();
    let text = String::from_utf8(errors::format(rt, e)).unwrap();
    assert!(text.contains("lowered format: empty input"), "{text}");
}

#[test]
fn numbers_have_signs() {
    let rt = &mut started();
    let bodies = parse(
        rt,
        "RUJU_LOWERED 1\nthunk +2 1\nreturn int:-9223372036854775808\n".as_bytes(),
    )
    .ok()
    .unwrap();
    assert_eq!(bodies.len(), 1);
    assert_eq!(bodies[0].nslots, 2);
    assert!(matches!(bodies[0].code[0], Stmt::Return(Op::Int(i64::MIN))));
}

#[test]
fn globals_read_what_was_written() {
    let rt = &mut started();
    let st = access::builtin(rt, id::SYMBOL);
    let sym = symbol::intern(rt, st, "answer");
    let main = Value(main_offset(rt));
    assert!(get_global(rt, main, sym).is_none());
    let v = box_int(rt, 42);
    set_global(rt, main, sym, v).unwrap();
    let got = get_global(rt, main, sym).unwrap();
    assert_eq!(unbox_int(rt, got), 42);
    let w = box_int(rt, 43);
    set_global(rt, main, sym, w).unwrap();
    let got = get_global(rt, main, sym).unwrap();
    assert_eq!(unbox_int(rt, got), 43);
}

fn message(rt: &mut Runtime, src: &str) -> String {
    String::from_utf8(lower_source(rt, src.as_bytes(), &Vec::new()).err().unwrap()).unwrap()
}

#[test]
fn source_errors_are_told() {
    let rt = &mut started();
    assert_eq!(message(rt, "(1 + 2"), "expected RParen, found Eof");
    assert_eq!(message(rt, "1 +"), "unexpected token Eof");
    assert_eq!(message(rt, "end"), "unexpected End");
    assert_eq!(message(rt, "while 1 < 2\nx = 1\n"), "expected End, found Eof");
    assert_eq!(message(rt, "if 1 < 2\nx = 1\n"), "expected else/elseif/end, found Eof");
    assert_eq!(message(rt, "x.1"), "expected field name after `.`, found Int(1)");
    assert_eq!(message(rt, "Int64(1 2)"), "expected `,` or `)`, found Int(2)");
    assert_eq!(message(rt, "struct 1"), "expected struct name, found Int(1)");
    assert_eq!(message(rt, "struct A\nx::1\nend"), "expected field type, found Int(1)");
    assert_eq!(message(rt, "struct A\n1\nend"), "expected field or `end` in struct, found Int(1)");
    assert_eq!(message(rt, "mutable 1"), "expected Struct, found Int(1)");
    assert_eq!(message(rt, "Nope(1)"), "UndefVarError: `Nope` not defined");
    assert_eq!(
        message(rt, "struct B\na::Int64\nend\nstruct B\nb::Int64\nend"),
        "invalid redefinition of constant B"
    );
    assert!(lex(b"1 ? 2").is_err());
    assert!(lex(b"99999999999999999999").is_err());
}

#[test]
fn float_literals_are_listed_in_order() {
    let texts = float_literals(b"1.5 + 2 * 3.25").ok().unwrap();
    assert_eq!(texts, vec![b"1.5".to_vec(), b"3.25".to_vec()]);
}

#[test]
fn loops_are_lowered_to_jumps() {
    let rt = &mut started();
    let body = lower_source(rt, b"i = 0\nwhile i < 3\ni = i + 1\nend\ni", &Vec::new()).ok().unwrap();
    assert_eq!(body.nslots, 1);
    assert_eq!(body.code.len(), 7);
    assert!(matches!(body.code[2], Stmt::GotoIfNot(Op::Ssa(1), 6)));
    assert!(matches!(body.code[5], Stmt::Goto(1)));
    assert!(matches!(body.code[6], Stmt::Return(Op::Slot(0))));
}
