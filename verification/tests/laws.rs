use ruju::abi::{rj_demo_add, rj_gc_collect, rj_init, rj_live_objects, rj_root_count};
use ruju::access;
use ruju::array;
use ruju::dispatch;
use ruju::gc;
use ruju::gc::{Frame, Rooted};
use ruju::id;
use ruju::module;
use ruju::object;
use ruju::object::type_of;
use ruju::state::{Runtime, Value};
use ruju::structs;
use ruju::symbol;
use ruju::types;
use ruju::value::{box_int, unbox_int};

fn started() -> Runtime {
    let mut rt = Runtime::new();
    rj_init(&mut rt).unwrap();
    rt
}

fn base(rt: &Runtime, i: u32) -> u32 {
    access::builtin(rt, i)
}

fn sub(rt: &mut Runtime, a: u32, b: u32) -> bool {
    types::issubtype(rt, a, b)
}

fn tup(rt: &mut Runtime, elems: &[u32]) -> u32 {
    types::tuple_type(rt, &elems.to_vec())
}

fn boxed(rt: &mut Runtime, a: u32) -> u32 {
    types::box_type(rt, a)
}

fn either(rt: &mut Runtime, a: u32, b: u32) -> u32 {
    types::union_type(rt, a, b)
}

fn nested(rt: &mut Runtime, leaf: u32, n: usize) -> u32 {
    let mut t = leaf;
    for _ in 0..n {
        t = tup(rt, &[t]);
    }
    t
}

#[test]
fn deep_types_are_compared_to_the_bottom() {
    let mut rt = started();
    let int = base(&rt, id::INT64);
    let real = base(&rt, id::REAL);
    let text = base(&rt, id::SYMBOL);
    for n in [249, 250, 251, 400] {
        let a = nested(&mut rt, int, n);
        let b = nested(&mut rt, real, n);
        let c = nested(&mut rt, text, n);
        assert!(sub(&mut rt, a, b));
        assert!(!sub(&mut rt, b, a));
        assert!(!sub(&mut rt, c, b));
        assert!(sub(&mut rt, a, a));
        // The same question within another one.
        let ba = boxed(&mut rt, a);
        let bb = boxed(&mut rt, b);
        assert!(sub(&mut rt, ba, ba));
        assert!(!sub(&mut rt, ba, bb));
        let u = either(&mut rt, a, c);
        assert!(sub(&mut rt, a, u));
        assert!(sub(&mut rt, c, u));
        assert!(!sub(&mut rt, b, u));
    }
}

#[test]
fn tuples_compare_element_by_element() {
    let mut rt = started();
    let int = base(&rt, id::INT64);
    let real = base(&rt, id::REAL);
    let text = base(&rt, id::SYMBOL);
    let all = [int, real, text];
    for &a in &all {
        for &b in &all {
            for &c in &all {
                for &d in &all {
                    let x = tup(&mut rt, &[a, b]);
                    let y = tup(&mut rt, &[c, d]);
                    let each = sub(&mut rt, a, c) && sub(&mut rt, b, d);
                    assert_eq!(sub(&mut rt, x, y), each);
                }
            }
        }
    }
    let one = tup(&mut rt, &[int]);
    let two = tup(&mut rt, &[int, int]);
    assert!(!sub(&mut rt, one, two));
    assert!(!sub(&mut rt, two, one));
}

#[test]
fn parameters_compare_both_ways() {
    let mut rt = started();
    let int = base(&rt, id::INT64);
    let real = base(&rt, id::REAL);
    let one = tup(&mut rt, &[int]);
    let wide = tup(&mut rt, &[real]);
    let all = [int, real, one, wide];
    for &a in &all {
        for &b in &all {
            let x = boxed(&mut rt, a);
            let y = boxed(&mut rt, b);
            let both = sub(&mut rt, a, b) && sub(&mut rt, b, a);
            assert_eq!(sub(&mut rt, x, y), both);
            assert_eq!(both, a == b);
        }
    }
}

#[test]
fn unions_compare_member_by_member() {
    let mut rt = started();
    let int = base(&rt, id::INT64);
    let byte = base(&rt, id::INT8);
    let text = base(&rt, id::SYMBOL);
    let real = base(&rt, id::REAL);
    let any = base(&rt, id::ANY);
    let bottom = base(&rt, id::BOTTOM);
    let one = tup(&mut rt, &[int]);
    let all = [int, byte, text, real, one];
    for &a in &all {
        for &b in &all {
            let u = either(&mut rt, a, b);
            for &c in &all {
                let below = sub(&mut rt, a, c) && sub(&mut rt, b, c);
                assert_eq!(sub(&mut rt, u, c), below);
                let above = sub(&mut rt, c, a) || sub(&mut rt, c, b);
                assert_eq!(sub(&mut rt, c, u), above);
            }
            assert!(sub(&mut rt, u, any));
            assert!(sub(&mut rt, bottom, u));
            assert!(!sub(&mut rt, any, u));
            // The order of the members is of no account.
            let w = either(&mut rt, b, a);
            if access::is_union(&rt, u) {
                assert_eq!(access::union_a(&rt, w), access::union_a(&rt, u));
                assert_eq!(access::union_b(&rt, w), access::union_b(&rt, u));
            } else {
                assert_eq!(w, u);
            }
        }
    }
}

#[test]
fn tuples_of_unions_compare_element_by_element() {
    let mut rt = started();
    let int = base(&rt, id::INT64);
    let byte = base(&rt, id::INT8);
    let text = base(&rt, id::SYMBOL);
    let real = base(&rt, id::REAL);
    let u = either(&mut rt, int, text);
    let v = either(&mut rt, byte, int);
    let w = either(&mut rt, v, text);
    let all = [int, real, u, v, w];
    for &a in &all {
        for &b in &all {
            let x = tup(&mut rt, &[a, b]);
            for &c in &all {
                for &d in &all {
                    let y = tup(&mut rt, &[c, d]);
                    let each = sub(&mut rt, a, c) && sub(&mut rt, b, d);
                    assert_eq!(sub(&mut rt, x, y), each);
                }
            }
        }
    }
    let pair = tup(&mut rt, &[u, v]);
    let more = tup(&mut rt, &[w, w]);
    let longer = tup(&mut rt, &[u, v, u]);
    assert!(sub(&mut rt, pair, more));
    assert!(!sub(&mut rt, more, pair));
    assert!(!sub(&mut rt, pair, longer));
    assert!(!sub(&mut rt, longer, pair));
}

#[test]
fn a_type_is_below_its_supertypes() {
    let mut rt = started();
    let any = base(&rt, id::ANY);
    let mut at = base(&rt, id::INT64);
    let start = at;
    let mut steps = 0;
    while at != any {
        at = access::supertype(&rt, at);
        assert!(sub(&mut rt, start, at));
        assert!(!sub(&mut rt, at, start));
        steps += 1;
    }
    assert_eq!(steps, 5);
}

#[test]
fn subtyping_is_transitive() {
    let mut rt = started();
    let any = base(&rt, id::ANY);
    let int = base(&rt, id::INT64);
    let real = base(&rt, id::REAL);
    let bottom = base(&rt, id::BOTTOM);
    let a = tup(&mut rt, &[int, bottom]);
    let b = tup(&mut rt, &[real, int]);
    let c = tup(&mut rt, &[real, any]);
    let d = boxed(&mut rt, int);
    let all = [any, int, real, bottom, a, b, c, d];
    let mut chains = 0;
    for &x in &all {
        for &y in &all {
            for &z in &all {
                if sub(&mut rt, x, y) && sub(&mut rt, y, z) {
                    assert!(sub(&mut rt, x, z));
                    chains += 1;
                }
            }
        }
    }
    assert!(chains > 50);
}

#[test]
fn unions_keep_what_is_below_no_other() {
    let mut rt = started();
    let int = base(&rt, id::INT64);
    let byte = base(&rt, id::INT8);
    let integer = base(&rt, id::INTEGER);
    let text = base(&rt, id::SYMBOL);
    let bottom = base(&rt, id::BOTTOM);
    let u = types::union_of(&mut rt, &vec![int, text, bottom, integer, byte, int]);
    assert!(access::is_union(&rt, u));
    let mut members = vec![access::union_a(&rt, u), access::union_b(&rt, u)];
    members.sort();
    let mut expected = vec![integer, text];
    expected.sort();
    assert_eq!(members, expected);
    for part in [int, text, bottom, integer, byte] {
        assert!(sub(&mut rt, part, u));
    }
}

// What the comparison of types takes for granted about names.
#[test]
fn types_of_one_name_are_alike() {
    let mut rt = started();
    let int = base(&rt, id::INT64);
    let real = base(&rt, id::REAL);
    let any = base(&rt, id::ANY);
    let bottom = base(&rt, id::BOTTOM);
    let data = base(&rt, id::DATATYPE);
    let mut all: Vec<u32> = (0..id::COUNT as u32).map(|i| base(&rt, i)).collect();
    for kind in [id::UNION, id::UNIONALL, id::TVAR, id::VARARG, id::INTERSECT, id::INT64] {
        assert_ne!(base(&rt, kind), data);
    }
    assert_ne!(base(&rt, id::UNION), base(&rt, id::TVAR));
    assert_ne!(base(&rt, id::UNION), base(&rt, id::VARARG));
    assert_ne!(any, bottom);
    assert_eq!(access::supertype(&rt, any), any);
    all.push(boxed(&mut rt, int));
    all.push(boxed(&mut rt, real));
    let p = types::pair_type(&mut rt, int, real);
    all.push(p);
    let q = types::pair_type(&mut rt, real, real);
    all.push(q);
    let e = tup(&mut rt, &[]);
    all.push(e);
    let f = tup(&mut rt, &[int, p]);
    all.push(f);
    let none: Vec<(Vec<u8>, u32)> = Vec::new();
    let own = structs::define_struct(&mut rt, &b"Own".to_vec(), real, &none, false);
    all.push(own);
    for &t in &all {
        assert!(access::is_datatype(&rt, t));
        for &u in &all {
            if access::name_of(&rt, t) == access::name_of(&rt, u) {
                assert_eq!(t == any, u == any);
                assert_eq!(t == bottom, u == bottom);
                let st = access::supertype(&rt, t);
                let su = access::supertype(&rt, u);
                assert_eq!(access::name_of(&rt, st), access::name_of(&rt, su));
                if !access::is_tuple(&rt, t) {
                    let pt = access::parameters_of(&rt, t);
                    let pu = access::parameters_of(&rt, u);
                    assert_eq!(pt == 0, pu == 0);
                    assert_eq!(access::svec_len(&rt, pt), access::svec_len(&rt, pu));
                }
            }
        }
    }
}

#[test]
fn a_requested_collection_is_full() {
    let mut rt = started();
    gc::collect_full(&mut rt);
    let n = gc::live_objects(&rt);
    let frame = Frame::new(&mut rt, 100);
    for k in 0..100 {
        let v = box_int(&mut rt, 5000 + k as i64);
        frame.set(&mut rt, k, v);
    }
    gc::collect(&mut rt);
    frame.release(&mut rt);
    gc::collect(&mut rt);
    assert_eq!(rj_gc_collect(&mut rt), 100);
    assert_eq!(rj_live_objects(&rt), n);
}

#[test]
fn full_collections_take_marks_and_then_garbage() {
    let mut rt = started();
    let any = base(&rt, id::ANY);
    let v = box_int(&mut rt, 7000);
    let keep = Rooted::new(&mut rt, v);
    gc::collect_full(&mut rt);
    assert_eq!(gc::remset_len(&rt), 0);
    assert_eq!(object::gc_bits(&rt, v), 2);
    // A mark from an earlier cycle keeps an object once.
    gc::collect(&mut rt);
    keep.release(&mut rt);
    let marked = object::gc_bits(&rt, v);
    gc::collect_full(&mut rt);
    if marked == 3 {
        assert_eq!(object::gc_bits(&rt, v), 2);
        assert_eq!(unbox_int(&rt, v), 7000);
    }
    gc::collect_full(&mut rt);
    assert_eq!(type_of(&rt, v), 0);
    assert_eq!(gc::remset_len(&rt), 0);
    assert!(access::is_datatype(&rt, any));
}

#[test]
fn callable_values_resolve_to_their_own_functions() {
    let mut rt = started();
    let f = dispatch::fresh_func_id(&mut rt);
    let g = dispatch::fresh_func_id(&mut rt);
    let function = base(&rt, id::FUNCTION);
    let a = dispatch::make_function(&mut rt, &b"f".to_vec(), f);
    let b = dispatch::make_function(&mut rt, &b"g".to_vec(), g);
    assert_eq!(dispatch::func_of(&rt, a), Some(f));
    assert_eq!(dispatch::func_of(&rt, b), Some(g));
    let ta = type_of(&rt, a);
    let tb = type_of(&rt, b);
    assert_ne!(ta, tb);
    assert_eq!(access::instance_of(&rt, ta), a.0);
    assert_eq!(access::supertype(&rt, ta), function);
    let c = dispatch::make_function(&mut rt, &b"f".to_vec(), g);
    assert_ne!(type_of(&rt, c), ta);
    assert_eq!(dispatch::func_of(&rt, a), Some(f));
    assert_eq!(dispatch::func_of(&rt, c), Some(g));
    gc::collect_full(&mut rt);
    assert_eq!(dispatch::func_of(&rt, a), Some(f));
}

#[test]
fn redefinitions_are_judged_by_their_fields() {
    let mut rt = started();
    let int = base(&rt, id::INT64);
    let real = base(&rt, id::REAL);
    let name = b"Point".to_vec();
    let fields = vec![(b"x".to_vec(), int), (b"y".to_vec(), real)];
    let t = structs::define_struct_from_source(&mut rt, &name, &fields, false).unwrap();
    let mut again = |rt: &mut Runtime, fields: &Vec<(Vec<u8>, u32)>, mutabl: bool| {
        structs::define_struct_from_source(rt, &name, fields, mutabl)
    };
    let refused = Err(b"invalid redefinition of constant Point".to_vec());
    assert_eq!(again(&mut rt, &fields, false), Ok(t));
    assert_eq!(again(&mut rt, &fields, true), refused);
    let swapped = vec![(b"y".to_vec(), real), (b"x".to_vec(), int)];
    assert_eq!(again(&mut rt, &swapped, false), refused);
    let other = vec![(b"x".to_vec(), int), (b"y".to_vec(), int)];
    assert_eq!(again(&mut rt, &other, false), refused);
    let fewer = vec![(b"x".to_vec(), int)];
    assert_eq!(again(&mut rt, &fewer, false), refused);
    gc::collect_full(&mut rt);
    assert_eq!(again(&mut rt, &fields, false), Ok(t));
    let st = base(&rt, id::SYMBOL);
    let sym = symbol::intern_bytes(&mut rt, st, b"Point");
    assert_eq!(structs::lookup_struct(&rt, sym), Some(t));
}

#[test]
fn rebinding_a_global_adds_no_binding() {
    let mut rt = started();
    let main = Value(module::main_offset(&rt));
    let st = base(&rt, id::SYMBOL);
    let x = symbol::intern_bytes(&mut rt, st, b"x");
    let y = symbol::intern_bytes(&mut rt, st, b"y");
    let table = object::get_ref(&rt, main, 8);
    let before = array::len(&rt, table);
    for k in 0..50 {
        let v = box_int(&mut rt, 900 + k);
        module::set_global(&mut rt, main, x, v).unwrap();
    }
    let table = object::get_ref(&rt, main, 8);
    assert_eq!(array::len(&rt, table), before + 2);
    let v = box_int(&mut rt, 4);
    module::set_global(&mut rt, main, y, v).unwrap();
    let table = object::get_ref(&rt, main, 8);
    assert_eq!(array::len(&rt, table), before + 4);
    let got = module::get_global(&mut rt, main, x).unwrap();
    assert_eq!(unbox_int(&rt, got), 949);
}

#[test]
fn inline_fields_are_read_back() {
    let mut rt = started();
    let int = base(&rt, id::INT64);
    let any = base(&rt, id::ANY);
    let fields = vec![(b"a".to_vec(), int), (b"r".to_vec(), any), (b"b".to_vec(), int)];
    let t = structs::define_struct(&mut rt, &b"Mixed".to_vec(), any, &fields, true);
    let keep_type = Rooted::new(&mut rt, Value(t));
    let one = box_int(&mut rt, 100_001);
    let keep_one = Rooted::new(&mut rt, one);
    let two = box_int(&mut rt, 100_002);
    let keep_two = Rooted::new(&mut rt, two);
    let v = structs::new_struct(&mut rt, t, &vec![one, two, two]).unwrap();
    let keep = Rooted::new(&mut rt, v);
    structs::set_nth_field(&mut rt, v, 2, one).unwrap();
    structs::set_nth_field(&mut rt, v, 0, two).unwrap();
    let a = structs::get_nth_field(&mut rt, v, 0).unwrap();
    assert_eq!(unbox_int(&rt, a), 100_002);
    let r = structs::get_nth_field(&mut rt, v, 1).unwrap();
    assert_eq!(r, two);
    let b = structs::get_nth_field(&mut rt, v, 2).unwrap();
    assert_eq!(unbox_int(&rt, b), 100_001);
    assert_ne!(b, one);
    assert_eq!(type_of(&rt, b), int);
    keep.release(&mut rt);
    keep_two.release(&mut rt);
    keep_one.release(&mut rt);
    keep_type.release(&mut rt);
}

#[test]
fn instantiations_stay_unique() {
    let mut rt = started();
    let int = base(&rt, id::INT64);
    let real = base(&rt, id::REAL);
    let a = boxed(&mut rt, int);
    let b = boxed(&mut rt, real);
    assert_ne!(a, b);
    let p = access::parameters_of(&rt, a);
    assert_eq!(access::svec_vec(&rt, p), vec![int]);
    assert_eq!(access::name_of(&rt, a), access::name_of(&rt, b));
    gc::collect_full(&mut rt);
    gc::collect(&mut rt);
    assert_eq!(boxed(&mut rt, int), a);
    assert_eq!(boxed(&mut rt, real), b);
    let p = access::parameters_of(&rt, b);
    assert_eq!(access::svec_vec(&rt, p), vec![real]);
}

#[test]
fn whole_calls_leave_the_shadow_stack() {
    let mut rt = started();
    assert_eq!(rj_root_count(&rt), 0);
    assert_eq!(rj_demo_add(&mut rt, 40, 2), 42);
    assert_eq!(rj_root_count(&rt), 0);
}

#[test]
fn a_started_runtime_is_in_order() {
    let mut rt = started();
    for i in [id::DATATYPE, id::TYPENAME, id::SYMBOL, id::BOOL, id::NOTHING, id::SVEC, id::MODULE] {
        let t = base(&rt, i);
        assert_ne!(t, 0);
        assert!(access::is_datatype(&rt, t));
    }
    // Nothing of what a start-up leaves is lost to a collection.
    assert_eq!(rj_root_count(&rt), 0);
    let any = base(&rt, id::ANY);
    let before = array::alloc_1d(&mut rt, any, 0).unwrap();
    let t = type_of(&rt, before);
    rj_gc_collect(&mut rt);
    gc::collect(&mut rt);
    rj_gc_collect(&mut rt);
    let after = array::alloc_1d(&mut rt, any, 0).unwrap();
    assert_eq!(type_of(&rt, after), t);
    for i in [id::DATATYPE, id::SYMBOL, id::MODULE, id::DIVIDEERROR, id::ERROREXCEPTION] {
        let t = base(&rt, i);
        assert!(access::is_datatype(&rt, t));
    }
}

#[test]
fn a_call_that_starts_the_runtime_leaves_the_shadow_stack() {
    let mut rt = Runtime::new();
    assert_eq!(rj_demo_add(&mut rt, 20, 22), 42);
    assert_eq!(rj_root_count(&rt), 0);
}

#[test]
fn definitions_survive_collections() {
    let mut rt = started();
    // Some of the types are old when their only instances are stored into them.
    let mut found = Vec::new();
    for k in 0..20 {
        let name = format!("Single{}", k).into_bytes();
        let t =
            structs::define_struct_from_source(&mut rt, &name, &Vec::new(), false).unwrap();
        let f = dispatch::fresh_func_id(&mut rt);
        let c = dispatch::make_function(&mut rt, &format!("call{}", k).into_bytes(), f);
        found.push((t, access::instance_of(&rt, t), c, f));
        gc::collect(&mut rt);
    }
    gc::collect_full(&mut rt);
    gc::collect(&mut rt);
    for (t, inst, c, f) in found {
        assert_ne!(inst, 0);
        assert_eq!(access::instance_of(&rt, t), inst);
        assert_eq!(type_of(&rt, Value(inst)), t);
        assert_eq!(dispatch::func_of(&rt, c), Some(f));
    }
}
