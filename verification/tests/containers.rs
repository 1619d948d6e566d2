use ruju::abi::rj_init;
use ruju::access;
use ruju::array;
use ruju::builtins;
use ruju::errors;
use ruju::gc;
use ruju::gc::Rooted;
use ruju::id;
use ruju::intrinsics;
use ruju::memory;
use ruju::module;
use ruju::object::type_of;
use ruju::state::{Runtime, Value};
use ruju::symbol;
use ruju::value::{box_bool, box_int, nothing, unbox_bool, unbox_int};

fn started() -> Runtime {
    let mut rt = Runtime::new();
    rj_init(&mut rt).unwrap();
    rt
}

fn said(rt: &Runtime, e: Value) -> String {
    String::from_utf8(errors::format(rt, e)).unwrap()
}

fn sym(rt: &mut Runtime, name: &str) -> u32 {
    let t = access::builtin(rt, id::SYMBOL);
    symbol::intern(rt, t, name)
}

#[test]
fn inline_buffers_box_their_elements_anew() {
    let mut rt = started();
    let int = access::builtin(&rt, id::INT64);
    let m = memory::alloc_memory(&mut rt, int, 3).unwrap();
    let keep = Rooted::new(&mut rt, m);
    assert_eq!(memory::len(&rt, m), 3);
    assert_eq!(memory::elem_type_of(&rt, m), int);
    // Fresh elements are zero.
    let z = memory::get(&mut rt, m, 2).unwrap();
    assert_eq!(unbox_int(&rt, z), 0);
    let v = box_int(&mut rt, -7);
    memory::set(&mut rt, m, 1, v).unwrap();
    let a = memory::get(&mut rt, m, 1).unwrap();
    let b = memory::get(&mut rt, m, 1).unwrap();
    assert_eq!(unbox_int(&rt, a), -7);
    assert_ne!(a, b);
    keep.release(&mut rt);
}

#[test]
fn reference_buffers_read_back_what_was_stored() {
    let mut rt = started();
    let any = access::builtin(&rt, id::ANY);
    let m = memory::alloc_memory(&mut rt, any, 2).unwrap();
    let keep = Rooted::new(&mut rt, m);
    let v = box_int(&mut rt, 5);
    memory::set(&mut rt, m, 0, v).unwrap();
    assert_eq!(memory::get(&mut rt, m, 0), Ok(v));
    // An element that was never set cannot be read.
    let e = memory::get(&mut rt, m, 1).unwrap_err();
    assert_eq!(said(&rt, e), "UndefRefError");
    keep.release(&mut rt);
}

#[test]
fn buffers_refuse_bad_indices_values_and_sizes() {
    let mut rt = started();
    let int = access::builtin(&rt, id::INT64);
    let m = memory::alloc_memory(&mut rt, int, 2).unwrap();
    let keep = Rooted::new(&mut rt, m);
    let e = memory::get(&mut rt, m, 2).unwrap_err();
    assert_eq!(said(&rt, e), "BoundsError: attempt to access at index [3]");
    let v = box_int(&mut rt, 1);
    let e = memory::set(&mut rt, m, 9, v).unwrap_err();
    assert_eq!(said(&rt, e), "BoundsError: attempt to access at index [10]");
    let yes = box_bool(&rt, true);
    let e = memory::set(&mut rt, m, 0, yes).unwrap_err();
    assert_eq!(
        said(&rt, e),
        "ErrorException: TypeError: memoryrefset!: expected Int64, got Bool"
    );
    let e = memory::alloc_memory(&mut rt, int, u32::MAX).unwrap_err();
    assert_eq!(
        said(&rt, e),
        "ErrorException: invalid GenericMemory size: \
         the number of elements is either negative or too large"
    );
    // A size that is fine in itself may still be more than the heap can hold.
    let e = memory::alloc_memory(&mut rt, int, 0x10_0000).unwrap_err();
    assert_eq!(said(&rt, e), "OutOfMemoryError");
    keep.release(&mut rt);
}

#[test]
fn arrays_grow_by_pushes_and_shrink_from_the_end() {
    let mut rt = started();
    let int = access::builtin(&rt, id::INT64);
    let a = array::alloc_1d(&mut rt, int, 0).unwrap();
    let keep = Rooted::new(&mut rt, a);
    for n in 0..50 {
        let v = box_int(&mut rt, n * n);
        array::push(&mut rt, a, v).unwrap();
    }
    assert_eq!(array::len(&rt, a), 50);
    assert_eq!(array::elem_type_of(&rt, a), int);
    for n in 0..50u32 {
        let v = array::aref(&mut rt, a, n).unwrap();
        assert_eq!(unbox_int(&rt, v), (n as i64) * (n as i64));
    }
    // Capacities: 4, 6, 9, 13, 19, 28, 42, 63.
    let m = array::mem_of(&rt, a);
    assert_eq!(memory::len(&rt, m), 63);
    array::del_end(&mut rt, a, 48).unwrap();
    assert_eq!(array::len(&rt, a), 2);
    let e = array::aref(&mut rt, a, 2).unwrap_err();
    assert_eq!(said(&rt, e), "BoundsError: attempt to access at index [3]");
    let e = array::del_end(&mut rt, a, 3).unwrap_err();
    assert_eq!(said(&rt, e), "BoundsError: attempt to access at index [0]");
    // Dropped elements are cleared, so that growing again finds zeros.
    array::grow_end(&mut rt, a, 1).unwrap();
    let v = array::aref(&mut rt, a, 2).unwrap();
    assert_eq!(unbox_int(&rt, v), 0);
    let seven = box_int(&mut rt, 7);
    array::aset(&mut rt, a, 0, seven).unwrap();
    let v = array::aref(&mut rt, a, 0).unwrap();
    assert_eq!(unbox_int(&rt, v), 7);
    let e = array::aset(&mut rt, a, 3, seven).unwrap_err();
    assert_eq!(said(&rt, e), "BoundsError: attempt to access at index [4]");
    let e = array::grow_end(&mut rt, a, u32::MAX).unwrap_err();
    assert_eq!(
        said(&rt, e),
        "ErrorException: invalid Array size: too large for system address width"
    );
    assert_eq!(array::len(&rt, a), 3);
    keep.release(&mut rt);
    assert_eq!(gc::root_count(&rt), 0);
}

#[test]
fn pushed_references_survive_collections() {
    let mut rt = started();
    let any = access::builtin(&rt, id::ANY);
    let a = array::alloc_1d(&mut rt, any, 0).unwrap();
    let keep = Rooted::new(&mut rt, a);
    for n in 0..200 {
        let v = box_int(&mut rt, n);
        array::push(&mut rt, a, v).unwrap();
        if n % 20 == 0 {
            gc::collect(&mut rt);
        }
    }
    gc::collect_full(&mut rt);
    gc::collect_full(&mut rt);
    for n in 0..200u32 {
        let v = array::aref(&mut rt, a, n).unwrap();
        assert_eq!(unbox_int(&rt, v), n as i64);
    }
    keep.release(&mut rt);
}

#[test]
fn globals_are_bound_and_rebound() {
    let mut rt = started();
    let main = Value(module::main_offset(&rt));
    let before = sym(&mut rt, "not_bound");
    assert_eq!(module::get_global(&mut rt, main, before), None);
    // More names than the first table holds.
    for n in 0..40 {
        let s = sym(&mut rt, &format!("g{n}"));
        let v = box_int(&mut rt, n);
        module::set_global(&mut rt, main, s, v).unwrap();
    }
    gc::collect_full(&mut rt);
    for n in 0..40 {
        let s = sym(&mut rt, &format!("g{n}"));
        let v = module::get_global(&mut rt, main, s).unwrap();
        assert_eq!(unbox_int(&rt, v), n);
    }
    let s = sym(&mut rt, "g3");
    let v = box_int(&mut rt, 333);
    module::set_global(&mut rt, main, s, v).unwrap();
    assert_eq!(module::get_global(&mut rt, main, s), Some(v));
    let s = sym(&mut rt, "g4");
    let v = module::get_global(&mut rt, main, s).unwrap();
    assert_eq!(unbox_int(&rt, v), 4);
    // Another module has bindings of its own.
    let name = sym(&mut rt, "Inner");
    let inner = module::new_module(&mut rt, name, main.0).unwrap();
    let keep = Rooted::new(&mut rt, inner);
    assert_eq!(module::get_global(&mut rt, inner, s), None);
    keep.release(&mut rt);
}

#[test]
fn exceptions_are_stacked_and_restored() {
    let mut rt = started();
    let none = nothing(&rt);
    assert_eq!(errors::exc_current(&rt), none);
    let outer = errors::divide_error(&rt);
    errors::exc_push(&mut rt, outer);
    let state = errors::exc_state(&rt);
    let inner = errors::undef_ref_error(&rt);
    errors::exc_push(&mut rt, inner);
    assert_eq!(errors::exc_current(&rt), inner);
    assert_eq!(errors::each_exception(&rt), vec![outer.0, inner.0]);
    errors::exc_restore(&mut rt, state);
    assert_eq!(errors::exc_current(&rt), outer);
    // Restoring to more than there are changes nothing.
    errors::exc_restore(&mut rt, 9);
    assert_eq!(errors::exc_state(&rt), 1);
    errors::exc_reset(&mut rt);
    assert_eq!(errors::exc_state(&rt), 0);
    assert_eq!(said(&rt, outer), "DivideError");
    assert_eq!(said(&rt, errors::out_of_memory(&rt)), "OutOfMemoryError");
    let e = errors::error_exception(&mut rt, "no such thing");
    assert_eq!(said(&rt, e), "ErrorException: no such thing");
    let e = errors::bounds_error(&mut rt, none, -4);
    assert_eq!(said(&rt, e), "BoundsError: attempt to access at index [-4]");
}

#[test]
fn native_functions_check_their_arguments() {
    let mut rt = started();
    let int = access::builtin(&rt, id::INT64);
    let one = box_int(&mut rt, 1);
    let list = builtins::f_svec(&mut rt, &vec![one, one]).unwrap();
    assert_eq!(access::svec_vec(&rt, list.0), vec![one.0, one.0]);
    assert_eq!(builtins::f_typeof(&mut rt, &vec![one]), Ok(Value(int)));
    let b = builtins::f_isa(&mut rt, &vec![one, Value(int)]).unwrap();
    assert!(unbox_bool(&rt, b));
    let boolean = access::builtin(&rt, id::BOOL);
    let b = builtins::f_isa(&mut rt, &vec![one, Value(boolean)]).unwrap();
    assert!(!unbox_bool(&rt, b));
    assert_eq!(builtins::f_throw(&mut rt, &vec![one]), Err(one));
    assert_eq!(builtins::f_convert(&mut rt, &vec![Value(int), one]), Ok(one));
    let e = builtins::f_convert(&mut rt, &vec![Value(boolean), one]).unwrap_err();
    assert_eq!(
        said(&rt, e),
        "ErrorException: convert: no method (base/ convert not loaded)"
    );
    let none = nothing(&rt);
    assert_eq!(builtins::f_declare_global(&mut rt, &vec![none, none, none]), Ok(none));
    let any = Value(access::builtin(&rt, id::ANY));
    assert_eq!(builtins::f_get_binding_type(&mut rt, &vec![none, none]), Ok(any));
    let name = sym(&mut rt, "bound");
    assert_eq!(builtins::f_setglobal(&mut rt, &vec![none, Value(name), one]), Ok(one));
    let main = Value(module::main_offset(&rt));
    assert_eq!(module::get_global(&mut rt, main, name), Some(one));

    let none_given: Vec<Value> = Vec::new();
    let e = builtins::f_typeof(&mut rt, &none_given).unwrap_err();
    assert_eq!(said(&rt, e), "ErrorException: typeof: expected 1 arguments");
    let e = builtins::f_isa(&mut rt, &none_given).unwrap_err();
    assert_eq!(said(&rt, e), "ErrorException: isa: expected 2 arguments");
    let e = builtins::f_throw(&mut rt, &none_given).unwrap_err();
    assert_eq!(said(&rt, e), "ErrorException: throw: expected 1 arguments");
    let e = builtins::f_convert(&mut rt, &none_given).unwrap_err();
    assert_eq!(said(&rt, e), "ErrorException: convert: expected 2 arguments");
    let e = builtins::f_declare_global(&mut rt, &none_given).unwrap_err();
    assert_eq!(said(&rt, e), "ErrorException: declare_global: expected 3 arguments");
    let e = builtins::f_get_binding_type(&mut rt, &none_given).unwrap_err();
    assert_eq!(said(&rt, e), "ErrorException: get_binding_type: expected 2 arguments");
    let e = builtins::f_setglobal(&mut rt, &none_given).unwrap_err();
    assert_eq!(said(&rt, e), "ErrorException: setglobal!: expected 3 arguments");
}

#[test]
fn integers_shift_divide_and_combine() {
    assert_eq!(intrinsics::and_int(0b1100, 0b1010), 0b1000);
    assert_eq!(intrinsics::or_int(0b1100, 0b1010), 0b1110);
    assert_eq!(intrinsics::xor_int(-1, 0b1010), -11);
    assert_eq!(intrinsics::shl_int(1, 63), i64::MIN);
    assert_eq!(intrinsics::shl_int(1, 64), 0);
    assert_eq!(intrinsics::shl_int(3, -1), 0);
    assert_eq!(intrinsics::ashr_int(-8, 1), -4);
    assert_eq!(intrinsics::ashr_int(-8, 64), -1);
    assert_eq!(intrinsics::ashr_int(8, 200), 0);
    assert_eq!(intrinsics::lshr_int(-1, 60), 15);
    assert_eq!(intrinsics::lshr_int(-1, 64), 0);
    assert_eq!(intrinsics::checked_sdiv_int(-7, 2), Some(-3));
    assert_eq!(intrinsics::checked_sdiv_int(7, 0), None);
    assert_eq!(intrinsics::checked_sdiv_int(i64::MIN, -1), None);
    assert_eq!(intrinsics::checked_srem_int(-7, 2), Some(-1));
    assert_eq!(intrinsics::checked_srem_int(7, -2), Some(1));
    assert_eq!(intrinsics::checked_srem_int(7, 0), None);
    assert_eq!(intrinsics::checked_srem_int(i64::MIN, -1), Some(0));
    // A quotient and its remainder rebuild the dividend.
    let (q, r) = (-3, -1);
    assert_eq!(2 * q + r, -7);
    // Subtraction undoes addition.
    let sum = intrinsics::add_int(i64::MAX, 12);
    assert_eq!(intrinsics::sub_int(sum, 12), i64::MAX);
}

#[test]
fn singletons_are_shared() {
    let mut rt = started();
    let none = nothing(&rt);
    assert_eq!(type_of(&rt, none), access::builtin(&rt, id::NOTHING));
    let e = errors::undef_ref_error(&rt);
    gc::collect_full(&mut rt);
    assert_eq!(errors::undef_ref_error(&rt), e);
    assert_eq!(nothing(&rt), none);
}
