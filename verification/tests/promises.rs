use ruju::abi::{
    begin_eval, rj_box_type, rj_builtin_type, rj_datatype_size, rj_egal, rj_eval, rj_eval_f64,
    rj_eval_typeof, rj_gc_collect, rj_init, rj_instantiate, rj_live_objects, rj_nothing,
    rj_pair_type, rj_root_count, rj_subtype, rj_supertype, rj_symbol_len, rj_tuple_type0,
    rj_tuple_type1, rj_tuple_type2, rj_tuple_type3, rj_type_name, rj_typeof, rj_types_egal,
    rj_typevar, rj_union_type, rj_unionall, rj_vararg,
};
use ruju::access;
use ruju::dispatch;
use ruju::gc;
use ruju::gc::Rooted;
use ruju::id;
use ruju::interp::{compiled_args, invoke, resume_compiled, run};
use ruju::interp_spec::Status;
use ruju::lexer::lex;
use ruju::loader::load_and_eval;
use ruju::object;
use ruju::parser::parse_program;
use ruju::state::{Runtime, Value};
use ruju::structs;
use ruju::symbol;
use ruju::types;
use ruju::value;
use ruju::value::{box_int, unbox_int};

fn started() -> Runtime {
    let mut rt = Runtime::new();
    rj_init(&mut rt).unwrap();
    rt
}

fn cell_type(rt: &mut Runtime) -> u32 {
    let any = access::builtin(rt, id::ANY);
    let fields = vec![(b"next".to_vec(), any), (b"item".to_vec(), any)];
    structs::define_struct(rt, &b"Cell".to_vec(), any, &fields, true)
}

// A list of the numbers below `n`, the last one first.
fn list(rt: &mut Runtime, t: u32, n: i64) -> Value {
    let mut head = Value(rj_nothing(rt));
    for k in 0..n {
        let keep = Rooted::new(rt, head);
        let item = box_int(rt, k);
        let keep_item = Rooted::new(rt, item);
        let cell = object::alloc_object(rt, t, 8);
        object::set_ref(rt, cell, 0, head);
        object::set_ref(rt, cell, 4, item);
        keep_item.release(rt);
        keep.release(rt);
        head = cell;
    }
    head
}

#[test]
fn what_roots_reach_stays_where_it_is() {
    let mut rt = started();
    let t = cell_type(&mut rt);
    let keep_type = Rooted::new(&mut rt, Value(t));
    let head = list(&mut rt, t, 100);
    let keep = Rooted::new(&mut rt, head);
    let mut places = Vec::new();
    let mut at = head;
    while object::type_of(&rt, at) == t {
        places.push((at, object::get_ref(&rt, at, 4)));
        at = object::get_ref(&rt, at, 0);
    }
    assert_eq!(places.len(), 100);
    for full in [false, true, false, true] {
        if full {
            gc::collect_full(&mut rt);
        } else {
            gc::collect(&mut rt);
        }
        for (i, (cell, item)) in places.iter().enumerate() {
            assert_eq!(object::type_of(&rt, *cell), t);
            assert_eq!(object::get_ref(&rt, *cell, 4), *item);
            assert_eq!(unbox_int(&rt, *item), 99 - i as i64);
        }
    }
    keep.release(&mut rt);
    keep_type.release(&mut rt);
}

#[test]
fn what_nothing_reaches_is_taken_back() {
    let mut rt = started();
    let t = cell_type(&mut rt);
    let keep_type = Rooted::new(&mut rt, Value(t));
    let lost = list(&mut rt, t, 5);
    let keep = Rooted::new(&mut rt, lost);
    let second = object::get_ref(&rt, lost, 0);
    gc::collect_full(&mut rt);
    assert!(rt.obj(second.0).is_some());
    keep.release(&mut rt);
    gc::collect_full(&mut rt);
    assert!(rt.obj(lost.0).is_none());
    assert!(rt.obj(second.0).is_none());
    keep_type.release(&mut rt);
}

#[test]
fn slots_are_handed_out_once() {
    let mut rt = started();
    let int = access::builtin(&rt, id::INT64);
    let mut seen: Vec<u32> = Vec::new();
    let mut roots = Vec::new();
    for n in 0..500u32 {
        let v = object::alloc_object(&mut rt, int, 8 * (n % 3));
        assert!(!v.is_null());
        roots.push(Rooted::new(&mut rt, v));
        seen.push(v.0);
    }
    let mut sorted = seen.clone();
    sorted.sort();
    for w in sorted.windows(2) {
        assert!(w[0] + 8 <= w[1]);
    }
    while let Some(r) = roots.pop() {
        r.release(&mut rt);
    }
}

#[test]
fn equal_texts_are_one_symbol() {
    let mut rt = started();
    let t = access::builtin(&rt, id::SYMBOL);
    let a = symbol::intern(&mut rt, t, "löwe");
    let used = rj_live_objects(&rt);
    let b = symbol::intern_bytes(&mut rt, t, "löwe".as_bytes());
    assert_eq!(a, b);
    assert_eq!(rj_live_objects(&rt), used);
    assert_eq!(symbol::as_str(&rt, a), "löwe".as_bytes());
    assert_eq!(rj_symbol_len(&rt, a), 5);
    gc::collect_full(&mut rt);
    gc::collect_full(&mut rt);
    assert_eq!(symbol::intern(&mut rt, t, "löwe"), a);
    let c = symbol::intern(&mut rt, t, "lowe");
    assert_ne!(a, c);
    // A text that no page can hold has no symbol.
    let long = "x".repeat(0x4001);
    assert_eq!(symbol::intern(&mut rt, t, &long), 0);
}

#[test]
fn equal_instantiations_are_one_type() {
    let mut rt = started();
    let int = access::builtin(&rt, id::INT64);
    let a = types::tuple_type(&mut rt, &vec![int, int]);
    let keep = Rooted::new(&mut rt, Value(a));
    let live = rj_live_objects(&rt);
    assert_eq!(types::tuple_type(&mut rt, &vec![int, int]), a);
    assert_eq!(rj_live_objects(&rt), live);
    gc::collect_full(&mut rt);
    gc::collect_full(&mut rt);
    assert_eq!(types::tuple_type(&mut rt, &vec![int, int]), a);
    let b = types::tuple_type(&mut rt, &vec![int]);
    assert_ne!(a, b);
    assert_eq!(types::memory_type(&mut rt, int), types::memory_type(&mut rt, int));
    assert_eq!(types::array_type(&mut rt, int), types::array_type(&mut rt, int));
    assert_eq!(types::type_type(&mut rt, int), types::type_type(&mut rt, int));
    keep.release(&mut rt);
}

#[test]
fn deep_nesting_is_read() {
    let depth = 400;
    let mut source = "(".repeat(depth);
    source.push('7');
    source.push_str(&")".repeat(depth));
    let ts = lex(source.as_bytes()).unwrap();
    assert!(parse_program(source.as_bytes(), &ts).is_ok());
    // A missing parenthesis is told as such, however deep it is.
    source.pop();
    let ts = lex(source.as_bytes()).unwrap();
    let m = parse_program(source.as_bytes(), &ts).err().unwrap();
    assert_eq!(String::from_utf8(m).unwrap(), "expected RParen, found Eof");
}

#[test]
fn dispatch_calls_compiled_methods_through_the_host() {
    let mut rt = started();
    let int = access::builtin(&rt, id::INT64);
    let p = load_and_eval(&mut rt, b"RUJU_LOWERED 1\nthunk 0 2\nmethod1 cm\nreturn ssa:0\n");
    let f = match p.ok().unwrap().machine.status {
        Status::Returned(v) => v,
        _ => panic!("no function"),
    };
    let func = dispatch::func_of(&rt, f).unwrap();
    let sig = types::tuple_type(&mut rt, &vec![int]);
    dispatch::add_compiled_method(&mut rt, func, sig, 9);
    // A call from outside is left to the caller, who has the arguments.
    let arg = box_int(&mut rt, 20);
    let m = invoke(&mut rt, func, &vec![arg]);
    assert!(m.status == Status::Compiled { index: 9, nargs: 0 });
    // No method fits a Bool.
    let no = value::box_bool(&rt, false);
    let m = invoke(&mut rt, func, &vec![no]);
    assert!(m.status == Status::Returned(Value(0)));
    // A program that calls it waits for the host, which finds the arguments.
    let mut p = load_and_eval(
        &mut rt,
        b"RUJU_LOWERED 1\nthunk 0 2\ncall global:cm int:20\nreturn ssa:0\n",
    )
    .ok()
    .unwrap();
    assert!(p.machine.status == Status::Compiled { index: 9, nargs: 1 });
    let args = compiled_args(&rt, &p.machine);
    assert_eq!(args.len(), 1);
    assert_eq!(unbox_int(&rt, args[0]), 20);
    let answer = box_int(&mut rt, 41);
    resume_compiled(&mut rt, &mut p.machine, Ok(answer));
    run(&mut rt, &mut p.machine, u64::MAX);
    assert!(p.machine.status == Status::Returned(answer));
    assert_eq!(rj_root_count(&rt), 0);
}

#[test]
fn exported_functions_give_plain_numbers() {
    let mut rt = started();
    let int = rj_builtin_type(&rt, id::INT64);
    let any = rj_builtin_type(&rt, id::ANY);
    assert_eq!(int, access::builtin(&rt, id::INT64));
    assert_eq!(rj_builtin_type(&rt, 9999), 0);
    assert_eq!(rj_datatype_size(&rt, int), 8);
    assert_eq!(symbol::as_str(&rt, rj_type_name(&rt, int)), b"Int64");
    assert_eq!(rj_supertype(&rt, any), any);
    assert_eq!(rj_subtype(&mut rt, int, any), 1);
    assert_eq!(rj_subtype(&mut rt, any, int), 0);
    assert_eq!(rj_egal(&mut rt, int, int), 1);
    let a = box_int(&mut rt, 3);
    let b = box_int(&mut rt, 3);
    let c = box_int(&mut rt, 4);
    assert_eq!(rj_egal(&mut rt, a.0, b.0), 1);
    assert_eq!(rj_egal(&mut rt, a.0, c.0), 0);
    let t0 = rj_tuple_type0(&mut rt);
    let t1 = rj_tuple_type1(&mut rt, int);
    let t2 = rj_tuple_type2(&mut rt, int, any);
    let t3 = rj_tuple_type3(&mut rt, int, int, int);
    assert_eq!(rj_subtype(&mut rt, t0, t1), 0);
    let open = rj_vararg(&mut rt, int);
    let many = rj_tuple_type1(&mut rt, open);
    assert_eq!(rj_subtype(&mut rt, t3, many), 1);
    assert_eq!(rj_subtype(&mut rt, t2, many), 0);
    let boxed = rj_box_type(&mut rt, int);
    let pair = rj_pair_type(&mut rt, int, int);
    let u = rj_union_type(&mut rt, boxed, pair);
    assert_eq!(rj_subtype(&mut rt, pair, u), 1);
    let bottom = access::builtin(&rt, id::BOTTOM);
    let v = rj_typevar(&mut rt, bottom, any);
    let body = rj_box_type(&mut rt, v);
    let all = rj_unionall(&mut rt, v, body);
    assert_eq!(rj_subtype(&mut rt, boxed, all), 1);
    assert_eq!(rj_instantiate(&mut rt, all, int), boxed);
    assert_eq!(rj_types_egal(&mut rt, all, all), 1);
    assert_eq!(rj_types_egal(&mut rt, all, boxed), 0);
    assert_eq!(rj_root_count(&rt), 0);
    assert!(rj_gc_collect(&mut rt) > 0);
    assert_eq!(rj_typeof(&rt, rj_nothing(&rt)), rj_builtin_type(&rt, id::NOTHING));
}

#[test]
fn programs_are_begun_and_read() {
    let mut rt = started();
    let none: Vec<u64> = Vec::new();
    let m = begin_eval(&mut rt, b"6 * 7", &none);
    assert_eq!(rj_eval(&mut rt, m), 42);
    let m = begin_eval(&mut rt, b"1 < 2", &none);
    assert_eq!(rj_eval_typeof(&mut rt, m), access::builtin(&rt, id::BOOL));
    let half = vec![0.5f64.to_bits()];
    let m = begin_eval(&mut rt, b"0.5", &half);
    assert_eq!(f64::from_bits(rj_eval_f64(&mut rt, m)), 0.5);
    // Neither a text that is no program nor bytes that are no text begin one.
    assert!(begin_eval(&mut rt, b"1 +", &none).is_none());
    assert!(begin_eval(&mut rt, &[0x31, 0xff], &none).is_none());
    assert_eq!(rj_eval(&mut rt, None), 0);
    assert_eq!(rj_root_count(&rt), 0);
}
