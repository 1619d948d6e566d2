//! The shadow stack of a running program: every activation holds its frame and the
//! operands it waits with, and nothing is left of them when it ends, however it ends.

use std::rc::Rc;
use vstd::prelude::*;
use crate::access::MAX_NESTING;
use crate::balance;
use crate::dispatch::{candidates, Candidate};
use crate::heights;
use crate::heights::level;
use crate::id;
use crate::interp_spec::{frame_size, ActV, Flow, MachineV, Pending, Status};
use crate::ir::{Body, Builtin, FnKind, Native, Op, Stmt};
use crate::region::NULL;
use crate::state::{State, Value};
use crate::types::{DataType, DT_SIZE};

verus! {

// --- what statements use ----------------------------------------------------

proof fn lemma_boxes(s: State, i: u32, bits: u64)
    ensures
        level(s, s.box64(i, bits).0),
{
    balance::law_values_balance(s, i, bits, 0, Seq::empty(), Seq::empty());
}

proof fn lemma_error(s: State, msg: Seq<u8>)
    ensures
        level(s, s.error_exception(msg).0),
{
    balance::law_errors_balance(s, 0, 0, msg);
}

proof fn lemma_global(s: State, b: u32, sym: u32, n: u32, i: int)
    ensures
        level(s, s.global_from(b, sym, n, i).0),
    decreases n - i,
{
    if !(i < 0 || i + 1 >= n) {
        balance::law_arrays_balance(s, 0, 0, b, i as u32);
        let (a, r) = s.arr_get(b, i as u32);
        balance::law_arrays_balance(a, 0, 0, b, (i + 1) as u32);
        lemma_global(a, b, sym, n, i + 2);
    }
}

proof fn lemma_query(s: State, a: u32, b: u32)
    ensures
        level(s, s.subtype(a, b, MAX_NESTING as nat).0),
{
    heights::law_queries_balance(s, a, b, Seq::empty(), MAX_NESTING as nat);
}

proof fn lemma_applicable(s: State, cs: Seq<Candidate>, tup: u32, n: int)
    ensures
        level(s, s.applicable(cs, tup, n).0),
    decreases n,
{
    if !(n <= 0 || n > cs.len()) {
        lemma_applicable(s, cs, tup, n - 1);
        lemma_query(s.applicable(cs, tup, n - 1).0, tup, cs[n - 1].sig);
    }
}

proof fn lemma_below_all(s: State, sig: u32, cs: Seq<Candidate>, j: int)
    ensures
        level(s, s.below_all(sig, cs, j).0),
    decreases cs.len() - j,
{
    if !(j < 0 || j >= cs.len()) {
        lemma_query(s, sig, cs[j].sig);
        lemma_below_all(s.subtype(sig, cs[j].sig, MAX_NESTING as nat).0, sig, cs, j + 1);
    }
}

proof fn lemma_most_specific(s: State, cs: Seq<Candidate>, i: int)
    ensures
        level(s, s.most_specific(cs, i).0),
    decreases cs.len() - i,
{
    if !(i < 0 || i >= cs.len()) {
        lemma_below_all(s, cs[i].sig, cs, 0);
        lemma_most_specific(s.below_all(cs[i].sig, cs, 0).0, cs, i + 1);
    }
}

/// Choosing a method leaves the shadow stack as high as it was.
pub proof fn law_dispatch_balances(s: State, func: u32, types: Seq<u32>)
    ensures
        s.select(func, types).0.roots.len() == s.roots.len(),
{
    reveal(State::select);
    balance::law_instantiation_balances(s, s.tuple_name(), s.builtin(id::ANY), types, NULL, 0);
    let (s1, tup) = s.tuple_type(types);
    let cs = candidates(s1.methods, func, s1.methods.len() as int);
    lemma_applicable(s1, cs, tup, cs.len() as int);
    let (s2, app) = s1.applicable(cs, tup, cs.len() as int);
    lemma_most_specific(s2, app, 0);
}

proof fn lemma_names(s: State, fields: Seq<(Seq<u8>, u32)>, n: int)
    ensures
        level(s, s.intern_names(fields, n).0),
    decreases n,
{
    if !(n <= 0 || n > fields.len()) {
        lemma_names(s, fields, n - 1);
        let a = s.intern_names(fields, n - 1).0;
        balance::law_values_balance(
            a,
            0,
            0,
            a.builtin(id::SYMBOL),
            fields[n - 1].0,
            Seq::empty(),
        );
    }
}

/// Defining a struct type leaves the shadow stack as high as it was.
pub proof fn law_definition_balances(
    s: State,
    name: Seq<u8>,
    super_: u32,
    fields: Seq<(Seq<u8>, u32)>,
    mutabl: bool,
)
    ensures
        s.define_struct(name, super_, fields, mutabl).0.roots.len() == s.roots.len(),
{
    reveal(State::define_struct);
    reveal(State::make_typename);
    reveal(State::place_words);
    let fts = fields.map_values(|f: (Seq<u8>, u32)| f.1);
    let s0 = s.push_roots(fts.push(super_));
    balance::law_values_balance(s0, 0, 0, s0.builtin(id::SYMBOL), name, Seq::empty());
    let (s1, sym) = s0.intern(s0.builtin(id::SYMBOL), name);
    crate::object::lemma_alloc_object_keeps(s1.push_root(sym), s1.builtin(id::TYPENAME), 16);
    let (s2, tn) = s1.make_typename(s1.builtin(id::TYPENAME), sym);
    let s3 = s2.push_root(tn).with_word(
        tn,
        12,
        if mutabl {
            1
        } else {
            0
        },
    );
    let l = s3.field_layout(fts);
    lemma_names(s3, fields, fields.len() as int);
    let (s4, syms) = s3.intern_names(fields, fields.len() as int);
    balance::law_values_balance(s4, 0, 0, 0, Seq::empty(), syms);
    let (s5, names) = s4.make_svec(syms);
    let a = s5.push_root(names).set_ref(tn, 8, names);
    balance::law_values_balance(a, 0, 0, 0, Seq::empty(), fts);
    let (s6, types) = a.make_svec(fts);
    let (s7, layout) = s6.push_root(types).struct_layout(l);
    assert(level(s6.push_root(types), s7));
    crate::object::lemma_alloc_object_keeps(s7, s7.builtin(id::DATATYPE), DT_SIZE as int);
    let (s8, t) = s7.alloc_object(s7.builtin(id::DATATYPE), DT_SIZE as int);
    let s9 = s8.write_dt(
        t,
        DataType {
            name: tn,
            super_,
            parameters: NULL,
            types,
            instance: NULL,
            layout,
            size: l.size,
            nfields: fields.len() as u32,
            flags: 0,
        },
    );
    assert(level(s8, s9));
    crate::object::lemma_alloc_object_keeps(s9.push_root(t), t, 0);
}

proof fn lemma_native(s: State, f: Native, args: Seq<Value>)
    ensures
        level(s, s.run_native(f, args).0),
{
    reveal(State::run_native);
    assert forall|p: State, msg: Seq<u8>| level(p, (#[trigger] p.error_exception(msg)).0) by {
        lemma_error(p, msg);
    }
    assert forall|p: State, a: u32, b: u32|
        level(p, (#[trigger] p.subtype(a, b, MAX_NESTING as nat)).0) by {
        lemma_query(p, a, b);
    }
    balance::law_values_balance(
        s,
        0,
        0,
        0,
        Seq::empty(),
        args.map_values(|a: Value| a.0),
    );
    heights::law_stores_balance(s, 0, 0, args[2].0, s.main, args[1].0);
}

proof fn lemma_read_op(s: State, base: int, nslots: int, op: Op)
    ensures
        level(s, s.read_op(base, nslots, op).0),
{
    match op {
        Op::Int(c) => {
            lemma_boxes(s, id::INT64, crate::value::bits_of(c));
        },
        Op::Float(c) => {
            lemma_boxes(s, id::FLOAT64, c);
        },
        Op::Global(sym) => {
            let b = s.word(s.main, 8);
            lemma_global(s, b, sym, s.arr_len(b), 0);
            assert forall|p: State, msg: Seq<u8>| level(p, (#[trigger] p.error_exception(msg)).0) by {
                lemma_error(p, msg);
            }
        },
        _ => {},
    }
}

proof fn lemma_read_args(s: State, base: int, nslots: int, ops: Seq<Op>, at: int, j: int)
    ensures
        level(s, s.read_args(base, nslots, ops, at, j).0),
    decreases ops.len() - j,
{
    if !(j < 0 || j >= ops.len()) {
        lemma_read_op(s, base, nslots, ops[j]);
        match s.read_op(base, nslots, ops[j]) {
            (a, Ok(v)) => {
                lemma_read_args(a.with_root(at + j, v.0), base, nslots, ops, at, j + 1);
            },
            _ => {},
        }
    }
}

proof fn lemma_fill_array(s: State, a: u32, vals: Seq<Value>, j: int)
    ensures
        level(s, s.fill_array(a, vals, j).0),
    decreases vals.len() - j,
{
    if !(j < 0 || j >= vals.len()) {
        heights::law_stores_balance(s, a, j as u32, vals[j].0, 0, 0);
        lemma_fill_array(s.arr_set(a, j as u32, vals[j].0).0, a, vals, j + 1);
    }
}

proof fn lemma_flush(s: State, base: int, flush: Seq<(usize, u32)>, i: int)
    ensures
        level(s, s.flush_slots(base, flush, i).0),
    decreases flush.len() - i,
{
    if !(i < 0 || i >= flush.len()) {
        let v = s.root_at(base + flush[i].0);
        if v == NULL {
            lemma_flush(s, base, flush, i + 1);
        } else {
            heights::law_stores_balance(s, 0, 0, v, s.main, flush[i].1);
            lemma_flush(s.set_global(s.main, flush[i].1, v).0, base, flush, i + 1);
        }
    }
}

/// The steps of a statement, each of which leaves the shadow stack as high as it was.
proof fn lemma_steps()
    ensures
        forall|s: State, base: int, nslots: int, op: Op|
            level(s, (#[trigger] s.read_op(base, nslots, op)).0),
        forall|s: State, base: int, nslots: int, ops: Seq<Op>, at: int, j: int|
            level(s, (#[trigger] s.read_args(base, nslots, ops, at, j)).0),
        forall|s: State, i: i64| level(s, (#[trigger] s.box_int(i)).0),
        forall|s: State, msg: Seq<u8>| level(s, (#[trigger] s.error_exception(msg)).0),
        forall|s: State, a: u32, i: i64| level(s, (#[trigger] s.bounds_error(a, i)).0),
        forall|s: State, m: u32, sym: u32| level(s, (#[trigger] s.get_global(m, sym)).0),
        forall|s: State, m: u32, sym: u32, v: u32|
            level(s, (#[trigger] s.set_global(m, sym, v)).0),
{
    assert forall|s: State, base: int, nslots: int, op: Op|
        level(s, (#[trigger] s.read_op(base, nslots, op)).0) by {
        lemma_read_op(s, base, nslots, op);
    }
    assert forall|s: State, base: int, nslots: int, ops: Seq<Op>, at: int, j: int|
        level(s, (#[trigger] s.read_args(base, nslots, ops, at, j)).0) by {
        lemma_read_args(s, base, nslots, ops, at, j);
    }
    assert forall|s: State, i: i64| level(s, (#[trigger] s.box_int(i)).0) by {
        lemma_boxes(s, id::INT64, crate::value::bits_of(i));
    }
    assert forall|s: State, msg: Seq<u8>| level(s, (#[trigger] s.error_exception(msg)).0) by {
        lemma_error(s, msg);
    }
    assert forall|s: State, a: u32, i: i64| level(s, (#[trigger] s.bounds_error(a, i)).0) by {
        balance::law_errors_balance(s, a, i, Seq::empty());
    }
    assert forall|s: State, m: u32, sym: u32| level(s, (#[trigger] s.get_global(m, sym)).0) by {
        let b = s.word(m, 8);
        lemma_global(s, b, sym, s.arr_len(b), 0);
    }
    assert forall|s: State, m: u32, sym: u32, v: u32|
        level(s, (#[trigger] s.set_global(m, sym, v)).0) by {
        heights::law_stores_balance(s, 0, 0, v, m, sym);
    }
}

// --- statements -------------------------------------------------------------

/// Whether a statement left on the shadow stack what its flow says: the operands of a
/// call or a request, else nothing.
pub open spec fn flows(s: State, e: State, flow: Flow) -> bool {
    match flow {
        Flow::Call { n, .. } => e.roots.len() == s.roots.len() + n,
        Flow::Float { n, .. } => e.roots.len() == s.roots.len() + n,
        Flow::Compiled { n, .. } => e.roots.len() == s.roots.len() + n,
        _ => level(s, e),
    }
}

proof fn lemma_do_call(s: State, base: int, nslots: int, ip: int, b: Builtin, args: Seq<Op>)
    requires
        args.len() <= usize::MAX,
    ensures
        ({
            let (e, flow) = s.do_call(base, nslots, ip, b, args);
            flows(s, e, flow)
        }),
{
    reveal(State::do_call);
    reveal(State::apply_builtin);
    lemma_steps();
}

proof fn lemma_do_dispatch(
    s: State,
    base: int,
    nslots: int,
    ip: int,
    func: u32,
    n: usize,
    first: usize,
    slot: Option<usize>,
)
    requires
        n <= s.roots.len(),
    ensures
        ({
            let (e, flow) = s.do_dispatch(base, nslots, ip, func, n, first, slot);
            match flow {
                Flow::Call { n: k, .. } => level(s, e) && k == n,
                Flow::Compiled { n: k, .. } => level(s, e) && k == n,
                Flow::Float { .. } => false,
                _ => e.roots.len() == s.roots.len() - n,
            }
        }),
{
    reveal(State::do_dispatch);
    let at = s.roots.len() - n + first;
    let types = s.values_at(at, n - first).map_values(|v: Value| s.tag(v.0));
    law_dispatch_balances(s, func, types);
}

proof fn lemma_do_generic(s: State, base: int, nslots: int, ip: int, func: u32, args: Seq<Op>)
    requires
        args.len() <= usize::MAX,
    ensures
        ({
            let (e, flow) = s.do_generic(base, nslots, ip, func, args);
            flows(s, e, flow)
        }),
{
    lemma_steps();
    let at = s.roots.len() as int;
    match s.push_frame(args.len()).read_args(base, nslots, args, at, 0) {
        (a, Ok(_)) => {
            lemma_do_dispatch(a, base, nslots, ip, func, args.len() as usize, 0, None);
        },
        _ => {},
    }
}

proof fn lemma_do_value_call(
    s: State,
    base: int,
    nslots: int,
    ip: int,
    slot: Option<usize>,
    args: Seq<Op>,
)
    requires
        args.len() <= usize::MAX,
    ensures
        ({
            let (e, flow) = s.do_value_call(base, nslots, ip, slot, args);
            flows(s, e, flow)
        }),
{
    reveal(State::do_value_call);
    lemma_steps();
    let at = s.roots.len() as int;
    let n = args.len() as int;
    match s.push_frame(args.len()).read_args(base, nslots, args, at, 0) {
        (a, Ok(_)) => {
            match a.callable_of(a.root_at(at)) {
                Some(FnKind::Generic(func)) => {
                    lemma_do_dispatch(
                        a,
                        base,
                        nslots,
                        ip,
                        func,
                        args.len() as usize,
                        if n > 0 {
                            1
                        } else {
                            0
                        },
                        slot,
                    );
                },
                Some(FnKind::Native(f)) => {
                    lemma_native(a, f, a.values_at(at + 1, n - 1));
                },
                None => {},
            }
        },
        _ => {},
    }
}

proof fn lemma_do_fields(
    s: State,
    base: int,
    nslots: int,
    ip: int,
    t: u32,
    args: Seq<Op>,
    op: Op,
    name: u32,
    rhs: Op,
)
    ensures
        ({
            let (e, flow) = s.do_new(base, nslots, ip, t, args);
            flows(s, e, flow)
        }),
        ({
            let (e, flow) = s.do_get_field(base, nslots, ip, op, name);
            flows(s, e, flow)
        }),
        ({
            let (e, flow) = s.do_set_field(base, nslots, ip, op, name, rhs);
            flows(s, e, flow)
        }),
{
    reveal(State::do_new);
    reveal(State::do_get_field);
    reveal(State::do_set_field);
    lemma_steps();
    assert forall|p: State, k: u32, vals: Seq<Value>|
        level(p, (#[trigger] p.new_struct(k, vals)).0) by {
        heights::law_structs_balance(p, k, vals, 0, 0, 0);
    }
    assert forall|p: State, v: u32, i: u32| level(p, (#[trigger] p.get_nth_field(v, i)).0) by {
        heights::law_structs_balance(p, 0, Seq::empty(), v, i, 0);
    }
    assert forall|p: State, v: u32, i: u32, r: u32|
        level(p, (#[trigger] p.set_nth_field(v, i, r)).0) by {
        heights::law_structs_balance(p, 0, Seq::empty(), v, i, r);
    }
}

proof fn lemma_do_method_func(s: State, base: int, nslots: int, ip: int, sym: u32)
    ensures
        ({
            let (e, flow) = s.do_method_func(base, nslots, ip, sym);
            flows(s, e, flow)
        }),
{
    reveal(State::do_method_func);
    lemma_steps();
    assert forall|p: State, name: Seq<u8>, kind: FnKind|
        level(p, (#[trigger] p.make_callable(name, kind)).0) by {
        reveal(State::make_callable);
        law_definition_balances(p, name, p.builtin(id::FUNCTION), Seq::empty(), false);
    }
}

proof fn lemma_do_method_def(
    s: State,
    base: int,
    nslots: int,
    ip: int,
    fop: Op,
    sigop: Op,
    body: Rc<Body>,
)
    ensures
        ({
            let (e, flow) = s.do_method_def(base, nslots, ip, fop, sigop, body);
            flows(s, e, flow)
        }),
{
    reveal(State::do_method_def);
    lemma_steps();
    assert forall|p: State, sig: u32| level(p, (#[trigger] p.method_signature(sig)).0) by {
        reveal(State::method_signature);
        lemma_error(p, crate::bytes::utf8("method: signature must be a Tuple type or argdata svec"));
        let a = p.push_root(sig);
        assert forall|types: Seq<u32>| level(a, (#[trigger] a.tuple_type(types)).0) by {
            balance::law_instantiation_balances(
                a,
                a.tuple_name(),
                a.builtin(id::ANY),
                types,
                NULL,
                0,
            );
        }
    }
}

proof fn lemma_do_arrays(
    s: State,
    base: int,
    nslots: int,
    ip: int,
    args: Seq<Op>,
    a: Op,
    idx: Op,
    rhs: Op,
)
    ensures
        ({
            let (e, flow) = s.do_array(base, nslots, ip, args);
            flows(s, e, flow)
        }),
        ({
            let (e, flow) = s.do_array_ref(base, nslots, ip, a, idx);
            flows(s, e, flow)
        }),
        ({
            let (e, flow) = s.do_array_set(base, nslots, ip, a, idx, rhs);
            flows(s, e, flow)
        }),
        ({
            let (e, flow) = s.do_push(base, nslots, ip, a, rhs);
            flows(s, e, flow)
        }),
        ({
            let (e, flow) = s.do_len(base, nslots, ip, a);
            flows(s, e, flow)
        }),
{
    reveal(State::do_array);
    reveal(State::do_array_ref);
    reveal(State::do_array_set);
    reveal(State::do_push);
    reveal(State::do_len);
    lemma_steps();
    assert forall|p: State, elem: u32, len: u32| level(p, (#[trigger] p.arr_alloc(elem, len)).0) by {
        balance::law_arrays_balance(p, elem, len, 0, 0);
    }
    assert forall|p: State, b: u32, i: u32| level(p, (#[trigger] p.arr_get(b, i)).0) by {
        balance::law_arrays_balance(p, 0, 0, b, i);
    }
    assert forall|p: State, b: u32, i: u32, v: u32| level(p, (#[trigger] p.arr_set(b, i, v)).0) by {
        heights::law_stores_balance(p, b, i, v, 0, 0);
    }
    assert forall|p: State, b: u32, v: u32| level(p, (#[trigger] p.arr_push(b, v)).0) by {
        heights::law_stores_balance(p, b, 0, v, 0, 0);
    }
    assert forall|p: State, b: u32, vals: Seq<Value>, j: int|
        level(p, (#[trigger] p.fill_array(b, vals, j)).0) by {
        lemma_fill_array(p, b, vals, j);
    }
    assert forall|p: State, b: u32, i: u32| level(p, (#[trigger] p.index_checked(b, i)).0) by {
        reveal(State::index_checked);
    }
}

/// A statement leaves the operands of a call or a request on the shadow stack, and
/// else nothing.
pub proof fn law_statements_balance(s: State, base: int, nslots: int, ip: int, stmt: Stmt)
    ensures
        ({
            let (e, flow) = s.exec_stmt(base, nslots, ip, stmt);
            flows(s, e, flow)
        }),
{
    reveal(State::exec_stmt);
    lemma_steps();
    match stmt {
        Stmt::Call(b, args) => {
            assert(args.len() == args@.len());
            lemma_do_call(s, base, nslots, ip, b, args@);
        },
        Stmt::CallGeneric(func, args) => {
            assert(args.len() == args@.len());
            lemma_do_generic(s, base, nslots, ip, func, args@);
        },
        Stmt::CallValue(args) => {
            assert(args.len() == args@.len());
            lemma_do_value_call(s, base, nslots, ip, None, args@);
        },
        Stmt::AssignCall(slot, args) => {
            assert(args.len() == args@.len());
            lemma_do_value_call(s, base, nslots, ip, Some(slot), args@);
        },
        Stmt::New(t, args) => {
            lemma_do_fields(s, base, nslots, ip, t, args@, Op::Const(0), 0, Op::Const(0));
        },
        Stmt::GetField(op, name) => {
            lemma_do_fields(s, base, nslots, ip, 0, Seq::empty(), op, name, Op::Const(0));
        },
        Stmt::SetField(op, name, rhs) => {
            lemma_do_fields(s, base, nslots, ip, 0, Seq::empty(), op, name, rhs);
        },
        Stmt::MethodFunc(sym) => {
            lemma_do_method_func(s, base, nslots, ip, sym);
        },
        Stmt::MethodDef(fop, sigop, body) => {
            lemma_do_method_def(s, base, nslots, ip, fop, sigop, body);
        },
        Stmt::ArrayLit(args) => {
            lemma_do_arrays(
                s,
                base,
                nslots,
                ip,
                args@,
                Op::Const(0),
                Op::Const(0),
                Op::Const(0),
            );
        },
        Stmt::ArrayRef(a, idx) => {
            lemma_do_arrays(s, base, nslots, ip, Seq::empty(), a, idx, Op::Const(0));
        },
        Stmt::ArraySet(a, idx, rhs) => {
            lemma_do_arrays(s, base, nslots, ip, Seq::empty(), a, idx, rhs);
        },
        Stmt::Push(a, v) => {
            lemma_do_arrays(s, base, nslots, ip, Seq::empty(), a, Op::Const(0), v);
        },
        Stmt::Len(a) => {
            lemma_do_arrays(s, base, nslots, ip, Seq::empty(), a, Op::Const(0), Op::Const(0));
        },
        _ => {},
    }
}

// --- programs ---------------------------------------------------------------

/// The operands that an activation waits with.
pub open spec fn waiting(a: ActV) -> int {
    match a.pending {
        Some(p) => p.n as int,
        None => 0,
    }
}

/// What the first `k` activations hold on the shadow stack: their frames, and the
/// operands of the calls they wait for.
pub open spec fn held(acts: Seq<ActV>, k: int) -> int
    decreases k,
{
    if k <= 0 || k > acts.len() {
        0
    } else {
        held(acts, k - 1) + frame_size(acts[k - 1].body) + waiting(acts[k - 1])
    }
}

/// Whether the shadow stack holds, above `floor`, what the activations hold, the
/// topmost one without operands.
pub open spec fn bare(s: State, acts: Seq<ActV>, floor: int) -> bool {
    let k = acts.len() as int;
    if k == 0 {
        s.roots.len() == floor
    } else {
        s.roots.len() == floor + held(acts, k - 1) + frame_size(acts[k - 1].body)
    }
}

/// Whether the shadow stack holds, above `floor`, what the program holds: a program
/// that waits for the host also holds the operands of its request.
pub open spec fn stacked(s: State, m: MachineV, floor: int) -> bool {
    match m.status {
        Status::Malformed => true,
        Status::Float(_) => m.acts.len() > 0 && s.roots.len() == floor + held(
            m.acts,
            m.acts.len() as int,
        ),
        Status::Compiled { .. } => m.acts.len() > 0 && s.roots.len() == floor + held(
            m.acts,
            m.acts.len() as int,
        ),
        Status::Running => bare(s, m.acts, floor),
        _ => m.acts.len() == 0 && s.roots.len() == floor,
    }
}

proof fn lemma_held_nat(acts: Seq<ActV>, k: int)
    ensures
        held(acts, k) >= 0,
    decreases k,
{
    if !(k <= 0 || k > acts.len()) {
        lemma_held_nat(acts, k - 1);
    }
}

/// What the lower activations hold does not depend on those above.
proof fn lemma_held_same(acts: Seq<ActV>, other: Seq<ActV>, k: int)
    requires
        k <= acts.len(),
        k <= other.len(),
        forall|i: int| 0 <= i < k ==> acts[i] == other[i],
    ensures
        held(acts, k) == held(other, k),
    decreases k,
{
    if k > 0 {
        lemma_held_same(acts, other, k - 1);
    }
}

/// Changing what the topmost activation does keeps what the program holds.
proof fn lemma_top(s: State, m: MachineV, a: ActV, floor: int)
    requires
        m.acts.len() > 0,
        a.body == m.acts.last().body,
        bare(s, m.acts, floor),
    ensures
        bare(s, m.with_top(a).acts, floor),
        held(m.with_top(a).acts, m.acts.len() as int) == held(m.acts, m.acts.len() - 1)
            + frame_size(a.body) + waiting(a),
        m.with_top(a).acts.len() == m.acts.len(),
{
    let k = m.acts.len() as int;
    let acts = m.with_top(a).acts;
    lemma_held_same(m.acts, acts, k - 1);
    assert(acts[k - 1] == a);
}

/// The end of an activation.
proof fn lemma_deactivate(s: State, m: MachineV, floor: int)
    requires
        m.acts.len() > 0,
        0 <= floor,
        bare(s, m.acts, floor),
    ensures
        ({
            let (e, m1) = s.deactivate(m);
            &&& bare(e, m1.acts, floor)
            &&& m1.acts == m.acts.drop_last()
            &&& m1.status == m.status
        }),
{
    let k = m.acts.len() as int;
    let rest = m.acts.drop_last();
    lemma_held_nat(m.acts, k - 1);
    lemma_held_nat(m.acts, k - 2);
    lemma_held_same(m.acts, rest, k - 1);
    if k > 1 {
        lemma_held_same(m.acts, rest, k - 2);
        assert(rest[k - 2] == m.acts[k - 2]);
    }
}

/// Raising an exception ends the activations without a handler, and releases what
/// they hold.
proof fn lemma_raise(s: State, m: MachineV, v: Value, push: bool, floor: int)
    requires
        0 <= floor,
        bare(s, m.acts, floor),
        m.status == Status::Running,
    ensures
        ({
            let (e, m1) = s.raise(m, v, push);
            stacked(e, m1, floor)
        }),
    decreases m.acts.len(),
{
    reveal(State::raise);
    if m.acts.len() > 0 {
        let top = m.acts.last();
        if top.handlers.len() > 0 {
            let a = ActV {
                ip: top.handlers.last(),
                handlers: top.handlers.drop_last(),
                pending: None,
                ..top
            };
            lemma_top(s, m, a, floor);
        } else {
            lemma_deactivate(s, m, floor);
            let (e, m1) = s.deactivate(m);
            lemma_raise(e, m1, v, true, floor);
            assert(s.raise(m, v, push) == e.raise(m1, v, true));
        }
    }
}

/// Handing a result to an activation.
proof fn lemma_deliver(s: State, m: MachineV, v: Value, floor: int)
    requires
        m.acts.len() > 0,
        bare(s, m.acts, floor),
        m.status == Status::Running,
    ensures
        ({
            let (e, m1) = s.deliver(m, v);
            stacked(e, m1, floor)
        }),
{
    let top = m.acts.last();
    let a = ActV { ip: crate::interp_spec::after(top.ip), pending: None, ..top };
    lemma_top(s, m, a, floor);
}

/// The return from an activation.
proof fn lemma_finish(s: State, m: MachineV, v: Value, floor: int)
    requires
        m.acts.len() > 0,
        0 <= floor,
        bare(s, m.acts, floor),
        m.status == Status::Running,
    ensures
        ({
            let (e, m1) = s.finish(m, v);
            stacked(e, m1, floor)
        }),
{
    reveal(State::finish);
    let top = m.acts.last();
    let p = s.push_root(v.0);
    lemma_flush(p, top.base as int, top.flush, 0);
    let (a, r) = p.flush_slots(top.base as int, top.flush, 0);
    let b = a.pop_roots(1);
    assert(level(s, b));
    lemma_deactivate(b, m, floor);
    let (s1, m1) = b.deactivate(m);
    match r {
        Err(e) => {
            lemma_raise(s1, m1, e, true, floor);
        },
        Ok(_) => {
            if m1.acts.len() > 0 {
                lemma_deliver(s1, m1, v, floor);
            }
        },
    }
}

proof fn lemma_seed(s: State, base: int, seeds: Seq<(usize, Value)>, i: int)
    ensures
        level(s, s.seed(base, seeds, i)),
    decreases seeds.len() - i,
{
    if !(i < 0 || i >= seeds.len()) {
        lemma_seed(s.with_root(base + seeds[i].0, seeds[i].1.0), base, seeds, i + 1);
    }
}

/// The start of an activation above operands that the one below waits with.
proof fn lemma_activate(
    s: State,
    m: MachineV,
    body: Rc<Body>,
    seeds: Seq<(usize, Value)>,
    flush: Seq<(usize, u32)>,
    floor: int,
)
    requires
        s.roots.len() == floor + held(m.acts, m.acts.len() as int),
    ensures
        ({
            let (e, m1) = s.activate(m, body, seeds, flush);
            stacked(e, m1, floor)
        }),
{
    reveal(State::activate);
    if frame_size(body) <= crate::interp_spec::MAX_FRAME {
        let base = s.roots.len() as int;
        let p = s.push_frame(frame_size(body) as nat);
        lemma_seed(p, base, seeds, 0);
        let (e, m1) = s.activate(m, body, seeds, flush);
        lemma_held_same(m.acts, m1.acts, m.acts.len() as int);
    }
}

/// What follows a statement.
proof fn lemma_follow(s: State, m: MachineV, flow: Flow, floor: int)
    requires
        m.acts.len() > 0,
        0 <= floor,
        m.status == Status::Running,
        match flow {
            Flow::Call { n, .. } => s.roots.len() >= n && bare(s.pop_roots(n as int), m.acts, floor),
            Flow::Float { n, .. } => s.roots.len() >= n && bare(
                s.pop_roots(n as int),
                m.acts,
                floor,
            ),
            Flow::Compiled { n, .. } => s.roots.len() >= n && bare(
                s.pop_roots(n as int),
                m.acts,
                floor,
            ),
            _ => bare(s, m.acts, floor),
        },
    ensures
        ({
            let (e, m1) = s.follow(m, flow);
            stacked(e, m1, floor)
        }),
{
    reveal(State::follow);
    let top = m.acts.last();
    match flow {
        Flow::Next => {
            lemma_top(s, m, ActV { ip: crate::interp_spec::after(top.ip), ..top }, floor);
        },
        Flow::Jump(target) => {
            lemma_top(s, m, ActV { ip: target, ..top }, floor);
        },
        Flow::Throw(v) => {
            lemma_raise(s, m, v, true, floor);
        },
        Flow::Rethrow(v) => {
            lemma_raise(s, m, v, false, floor);
        },
        Flow::Return(v) => {
            lemma_finish(s, m, v, floor);
        },
        Flow::Enter(catch_ip) => {
            let a = ActV {
                ip: crate::interp_spec::after(top.ip),
                handlers: top.handlers.push(catch_ip),
                ..top
            };
            lemma_top(s, m, a, floor);
        },
        Flow::Leave(n) => {
            let a = ActV {
                ip: crate::interp_spec::after(top.ip),
                handlers: top.handlers.take(
                    if n <= top.handlers.len() {
                        top.handlers.len() - n
                    } else {
                        0
                    },
                ),
                ..top
            };
            lemma_top(s, m, a, floor);
        },
        Flow::Call { body, n, first, slot } => {
            let a = ActV { pending: Some(Pending { n, slot }), ..top };
            lemma_top(s.pop_roots(n as int), m, a, floor);
            lemma_activate(
                s,
                m.with_top(a),
                body,
                s.call_seeds(n as int, first as int),
                Seq::empty(),
                floor,
            );
        },
        Flow::Float { call, n } => {
            let a = ActV { pending: Some(Pending { n, slot: None }), ..top };
            lemma_top(s.pop_roots(n as int), m, a, floor);
        },
        Flow::Compiled { index, n, first, slot } => {
            let a = ActV { pending: Some(Pending { n, slot }), ..top };
            lemma_top(s.pop_roots(n as int), m, a, floor);
        },
    }
}

proof fn lemma_step(s: State, m: MachineV, floor: int)
    requires
        0 <= floor,
        stacked(s, m, floor),
    ensures
        ({
            let (e, m1) = s.step(m);
            stacked(e, m1, floor)
        }),
{
    reveal(State::step);
    if m.status == Status::Running && m.acts.len() > 0 {
        let top = m.acts.last();
        if top.ip < top.body.code@.len() {
            let stmt = top.body.code@[top.ip as int];
            let base = top.base as int;
            let nslots = top.body.nslots as int;
            law_statements_balance(s, base, nslots, top.ip as int, stmt);
            let (a, flow) = s.exec_stmt(base, nslots, top.ip as int, stmt);
            lemma_follow(a, m, flow, floor);
        }
    }
}

/// A program holds on the shadow stack, above what was there before it, the frames of
/// its activations and the operands they wait with, and nothing else, as it runs: a
/// program that ended, whether it returned or raised, left the shadow stack as high as
/// it found it.
pub proof fn law_programs_balance(s: State, m: MachineV, n: nat, floor: int)
    requires
        0 <= floor,
        stacked(s, m, floor),
    ensures
        ({
            let (e, m1) = s.run(m, n);
            &&& stacked(e, m1, floor)
            &&& m1.status is Returned || m1.status is Raised ==> e.roots.len() == floor
        }),
    decreases n,
{
    if !(n == 0 || m.status != Status::Running || m.acts.len() == 0) {
        lemma_step(s, m, floor);
        let (a, m1) = s.step(m);
        law_programs_balance(a, m1, (n - 1) as nat, floor);
    }
}

/// A program begins, and goes on after a reply of the host, with nothing else on the
/// shadow stack.
pub proof fn law_replies_balance(
    s: State,
    m: MachineV,
    body: Rc<Body>,
    seeds: Seq<(usize, Value)>,
    flush: Seq<(usize, u32)>,
    bits: u64,
    r: Result<Value, Value>,
    floor: int,
)
    requires
        0 <= floor,
        stacked(s, m, floor),
    ensures
        ({
            let (e, m1) = s.resume_float(m, bits);
            stacked(e, m1, floor)
        }),
        ({
            let (e, m1) = s.resume_compiled(m, r);
            stacked(e, m1, floor)
        }),
        ({
            let (e, m1) = s.activate(
                (MachineV { acts: Seq::empty(), status: Status::Running }),
                body,
                seeds,
                flush,
            );
            stacked(e, m1, s.roots.len() as int)
        }),
{
    reveal(State::resume_float);
    reveal(State::resume_compiled);
    let none = MachineV { acts: Seq::empty(), status: Status::Running };
    lemma_activate(s, none, body, seeds, flush, s.roots.len() as int);
    match m.status {
        Status::Float(call) => {
            let (a, v) = if crate::interp_spec::compares(call.op) {
                (s, s.box_bool(bits != 0))
            } else {
                s.box64(id::FLOAT64, bits)
            };
            lemma_boxes(s, id::FLOAT64, bits);
            lemma_answer(a, m, Ok(Value(v)), floor);
        },
        Status::Compiled { .. } => {
            lemma_answer(s, m, r, floor);
        },
        _ => {},
    }
}

proof fn lemma_answer(s: State, m: MachineV, r: Result<Value, Value>, floor: int)
    requires
        m.acts.len() > 0,
        0 <= floor,
        s.roots.len() == floor + held(m.acts, m.acts.len() as int),
    ensures
        ({
            let (e, m1) = s.answer(m, r);
            stacked(e, m1, floor)
        }),
{
    let top = m.acts.last();
    lemma_held_nat(m.acts, m.acts.len() - 1);
    let a = s.pop_roots(waiting(top));
    let m1 = m.with_status(Status::Running);
    assert(bare(a, m1.acts, floor));
    match r {
        Ok(v) => {
            lemma_deliver(a, m1, v, floor);
        },
        Err(e) => {
            lemma_raise(a, m1, e, true, floor);
        },
    }
}

} // verus!
