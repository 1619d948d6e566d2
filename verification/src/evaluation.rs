//! What sources evaluate to.

use std::rc::Rc;
use vstd::prelude::*;
use crate::bytes::decimal;
use crate::definitions::{
    carried, follows, lemma_follows_trans, lemma_fresh, lemma_hold, lemma_leaf, lemma_release,
    lemma_root_follows, tables_stay,
};
use crate::frontend::operation;
use crate::health::{lemma_fill_healthy, lemma_only_at_trans, lemma_word_only_at, loose};
use crate::id;
use crate::interp_spec::{FloatCall, FloatOp, Flow, MachineV, Num, Status};
use crate::intrinsics::{ashr, lshr, shl, wrap};
use crate::ir::{body_view, stmt_view, Body, Builtin, Op, Stmt, StmtV};
use crate::operators::{
    beside, boxes_ints, computes, is_int, leaves_int, lemma_read, raises_division, read_op_text,
    remains, texts_read, tightness, times,
};
use crate::parser::BinOp;
use crate::region::NULL;
use crate::sources::{binary_source, lemma_lowered};
use crate::state::{State, Value};
use crate::uniquing::{lemma_base_of_kept, lemma_described_kept, lemma_holds_refs_kept};
use crate::value::{bits_of, high_word, low_word};

verus! {

/// Whether integers can be boxed: their type is there, and its instances hold eight bytes
/// and no reference.
pub open spec fn ints_ready(s: State) -> bool {
    let t = s.builtin(id::INT64);
    &&& boxes_ints(s)
    &&& s.tag(t) == s.builtin(id::DATATYPE)
    &&& s.holds_refs(t, 0)
    &&& s.layout(t) < s.region.top
}

/// Filling a new box.
proof fn lemma_fill_box(s: State, a: State, v: u32, x: u64)
    requires
        s.in_order(),
        follows(s, a),
        ints_ready(s),
        a.builtins == s.builtins,
        loose(a, v),
        a.tag(v) == s.builtin(id::INT64),
    ensures
        follows(a, a.with_word64(v, x)),
        a.with_word64(v, x).good(v),
{
    let t = s.builtin(id::INT64);
    let b = a.with_word(v, 0, low_word(x));
    let c = a.with_word64(v, x);
    lemma_word_only_at(a, v, 0, low_word(x));
    lemma_word_only_at(b, v, 4, high_word(x));
    lemma_only_at_trans(a, b, c, v);
    crate::health::lemma_builtin_is_root(s, id::INT64);
    lemma_root_follows(s, a, t);
    assert(follows(a, c)) by {
        reveal(State::in_order);
        reveal(carried);
        lemma_fill_healthy(a, c, v);
        lemma_base_of_kept(a, c);
        lemma_described_kept(a, c);
    }
    lemma_root_follows(a, c, t);
    assert(a.holds_refs(t, 0) && a.layout(t) < a.region.top) by {
        crate::instances::lemma_grows(s, a);
        reveal(carried);
        lemma_holds_refs_kept(s, a, t, 0);
    }
    assert(c.holds_refs(t, 0)) by {
        reveal(carried);
        lemma_holds_refs_kept(a, c, t, 0);
    }
    lemma_leaf(c, v);
}

/// A box of an integer keeps a heap in order, and is good.
pub proof fn lemma_box_keeps(s: State, n: i64)
    requires
        s.in_order(),
        ints_ready(s),
    ensures
        ({
            let (e, v) = s.box_int(n);
            &&& follows(s, e)
            &&& e.good(v)
            &&& tables_stay(s, e)
            &&& e.syms == s.syms
            &&& ints_ready(e)
            &&& v != NULL ==> is_int(e, v, n)
        }),
{
    let t = s.builtin(id::INT64);
    let (a, v) = s.alloc_object(t, 8);
    lemma_fresh(s, t, 8);
    crate::object::lemma_alloc_object_keeps(s, t, 8);
    crate::operators::lemma_box(s, n);
    let (e, w) = s.box_int(n);
    assert(s.box_int(n) == if v == NULL {
        (a, NULL)
    } else {
        (a.with_word64(v, bits_of(n)), v)
    }) by {
        reveal(State::box64);
    }
    if v != NULL {
        lemma_fill_box(s, a, v, bits_of(n));
        lemma_follows_trans(s, a, e);
    }
    crate::health::lemma_builtin_is_root(s, id::INT64);
    lemma_root_follows(s, e, t);
    crate::instances::lemma_grows(s, e);
    assert(e.holds_refs(t, 0)) by {
        reveal(carried);
        lemma_holds_refs_kept(s, e, t, 0);
    }
}

/// Whether there is room for boxes of two integers, one after the other, the first one
/// held meanwhile.
pub open spec fn room_for(s: State, a: i64, c: i64) -> bool {
    let (s1, p) = beside(s, NULL, NULL).box_int(a);
    &&& p != NULL
    &&& (State { roots: s.roots + seq![p, NULL], ..s1 }).box_int(c).1 != NULL
}

/// Two literals are read to boxes of them.
#[verifier::rlimit(40)]
proof fn lemma_read_literals(
    s: State,
    base: int,
    nslots: int,
    a: i64,
    c: i64,
) -> (r: (State, u32, u32))
    requires
        s.in_order(),
        ints_ready(s),
        room_for(s, a, c),
    ensures
        ({
            let (t, p, q) = r;
            &&& s.push_frame(2).read_args(
                base,
                nslots,
                seq![Op::Int(a), Op::Int(c)],
                s.roots.len() as int,
                0,
            ) == (beside(t, p, q), Ok::<(), Value>(()))
            &&& t.roots == s.roots
            &&& is_int(t, p, a)
            &&& is_int(t, q, c)
            &&& boxes_ints(t)
            &&& t.builtins == s.builtins
            &&& tables_stay(s, t)
        }),
{
    let args = seq![Op::Int(a), Op::Int(c)];
    let at = s.roots.len() as int;
    let f = s.push_frame(2);
    let nulls = seq![NULL, NULL];
    assert(f.roots =~= s.roots + nulls);
    assert(f =~= s.push_roots(nulls));
    assert(f =~= beside(s, NULL, NULL));
    lemma_hold(s, nulls);
    assert(ints_ready(f)) by {
        assert(forall|off: u32, k: int| #[trigger] f.layout_word(off, k) == s.layout_word(off, k));
        crate::writes::lemma_holds_same(s, f, s.builtin(id::INT64), 0);
    }
    lemma_box_keeps(f, a);
    let (e1, p) = f.box_int(a);
    lemma_follows_trans(s, f, e1);
    assert(crate::uniquing::base_kept(s, e1)) by {
        reveal(carried);
    }
    assert(e1.roots.take(at) =~= s.roots);
    lemma_release(s, e1, 2);
    let e0 = e1.pop_roots(2);
    let held = seq![p, NULL];
    let g = State { roots: s.roots + held, ..e1 };
    assert(g =~= e0.push_roots(held));
    lemma_hold(e0, held);
    assert(held[0] == p);
    assert(g.root_list().contains(held[0]));
    assert(f.with_root(at, p) == State { roots: f.with_root(at, p).roots, ..f });
    let g1 = e1.with_root(at, p);
    assert(g1.roots =~= g.roots);
    assert(g1 =~= g);
    assert(ints_ready(g)) by {
        assert(forall|off: u32, k: int| #[trigger] g.layout_word(off, k) == e1.layout_word(off, k));
        crate::writes::lemma_holds_same(e1, g, s.builtin(id::INT64), 0);
    }
    lemma_box_keeps(g, c);
    let (e2, q) = g.box_int(c);
    lemma_root_follows(g, e2, p);
    assert(is_int(g, p, a));
    assert(is_int(e2, p, a));
    let h = e2.with_root(at + 1, q);
    assert(h.roots =~= s.roots + seq![p, q]);
    let t = State { roots: s.roots, ..e2 };
    assert(h =~= beside(t, p, q));
    assert(h.read_args(base, nslots, args, at, 2) == (h, Ok::<(), Value>(())));
    assert(g.read_args(base, nslots, args, at, 1) == (h, Ok::<(), Value>(())));
    assert(f.read_args(base, nslots, args, at, 0) == (h, Ok::<(), Value>(())));
    (t, p, q)
}

/// Whether a program returned a box of the integer `n`: what boxing `n` gave, which holds
/// `n` where there was memory for it.
pub open spec fn returned_int(s: State, e: State, m: MachineV, n: i64) -> bool {
    m.status matches Status::Returned(v) && {
        &&& exists|u: State| u.builtins == s.builtins && v.0 == (#[trigger] u.box_int(n)).1
        &&& v.0 != NULL ==> is_int(e, v.0, n)
    }
}

/// Whether a program returned a truth value.
pub open spec fn returned_bool(s: State, m: MachineV, b: bool) -> bool {
    m.status == Status::Returned(Value(s.box_bool(b)))
}

/// Whether a program ended with the exception for an integer division.
pub open spec fn raised_division(s: State, e: State, m: MachineV) -> bool {
    m.status matches Status::Raised(v) && exists|u: State|
        u.builtins == s.builtins && v.0 == #[trigger] u.singleton(id::DIVIDEERROR)
}

/// What `x OP y` evaluates to, by the operator's text: the program run in `s` ends in the
/// state `e` as `m` says.
pub open spec fn evaluates(w: Seq<u8>, x: i64, y: i64, s: State, e: State, m: MachineV) -> bool {
    &&& w == seq![43u8] ==> returned_int(s, e, m, wrap(x + y))
    &&& w == seq![45u8] ==> returned_int(s, e, m, wrap(x - y))
    &&& w == seq![42u8] ==> returned_int(s, e, m, wrap(x * y))
    &&& w == seq![38u8] ==> returned_int(s, e, m, x & y)
    &&& w == seq![124u8] ==> returned_int(s, e, m, x | y)
    &&& w == seq![0xe2u8, 0x8au8, 0xbbu8] ==> returned_int(s, e, m, x ^ y)
    &&& w == seq![60u8, 60u8] ==> returned_int(s, e, m, shl(x, y))
    &&& w == seq![62u8, 62u8] ==> returned_int(s, e, m, ashr(x, y))
    &&& w == seq![62u8, 62u8, 62u8] ==> returned_int(s, e, m, lshr(x, y))
    &&& w == seq![0xc3u8, 0xb7u8] ==> if y == 0 {
        raised_division(s, e, m)
    } else {
        exists|n: i64| #[trigger] returned_int(s, e, m, n) && remains(x, y, x - n * y)
    }
    &&& w == seq![37u8] ==> if y == 0 {
        raised_division(s, e, m)
    } else {
        exists|n: i64, k: int| #[trigger]
            returned_int(s, e, m, n) && remains(x, y, n as int) && x == #[trigger] times(k, y) + n
    }
    &&& w == seq![47u8] ==> m.status == Status::Float(
        FloatCall { op: FloatOp::Div, a: Num::Int(x), b: Num::Int(y) },
    )
    &&& w == seq![60u8] ==> returned_bool(s, m, x < y)
    &&& w == seq![60u8, 61u8] ==> returned_bool(s, m, x <= y)
    &&& w == seq![62u8] ==> returned_bool(s, m, x > y)
    &&& w == seq![62u8, 61u8] ==> returned_bool(s, m, x >= y)
    &&& w == seq![61u8, 61u8] ==> returned_bool(s, m, x == y)
    &&& w == seq![61u8, 61u8, 61u8] ==> returned_bool(s, m, x == y)
}

/// The two statements of a lowered operator, run from the start: what the first one left
/// is returned, an exception ends the program, and a floating-point request pauses it.
#[verifier::rlimit(40)]
proof fn lemma_two_steps(s: State, body: Rc<Body>)
    requires
        body.nslots == 0,
        body.code@.len() == 2,
        stmt_view(body.code@[1]) == StmtV::Return(Op::Ssa(0)),
        s.roots.len() + 2 <= usize::MAX,
    ensures
        ({
            let base = s.roots.len() as int;
            let f = s.push_frame(2);
            let (u, flow) = f.exec_stmt(base, 0, 0, body.code@[0]);
            let (e, m) = s.begin(body, Seq::empty(), Seq::empty());
            &&& flow == Flow::Next && u.roots.len() == base + 2 ==> m.status == Status::Returned(
                Value(u.roots[base]),
            ) && e.objs == u.objs && e.builtins == u.builtins
            &&& flow matches Flow::Throw(v) ==> m.status == Status::Raised(v)
            &&& flow matches Flow::Float { call, n } ==> m.status == Status::Float(call)
        }),
{
    reveal(State::activate);
    reveal(State::step);
    reveal(State::follow);
    let none = Seq::<(usize, Value)>::empty();
    let base = s.roots.len() as int;
    let f = s.push_frame(2);
    let (s0, m0) = s.start(body, Seq::empty(), Seq::empty());
    assert(f.seed(base, Seq::empty(), 0) == f);
    assert(s0 == f);
    let (u, flow) = f.exec_stmt(base, 0, 0, body.code@[0]);
    let (s1, m1) = s0.step(m0);
    let top = m0.acts.last();
    assert(top.base == base);
    assert((s1, m1) == u.follow(m0, flow));
    let n = u64::MAX as nat;
    assert(s0.run(m0, n) == s1.run(m1, (n - 1) as nat));
    match flow {
        Flow::Next => {
            let next = m1.acts.last();
            assert(next.ip == 1) by {
                crate::handlers::lemma_next(top);
            }
            if u.roots.len() == base + 2 {
                let v = Value(u.roots[base]);
                assert(body.code@[1] == Stmt::Return(Op::Ssa(0)));
                assert(u.exec_stmt(base, 0, 1, body.code@[1]) == (u, Flow::Return(v))) by {
                    reveal(State::exec_stmt);
                }
                crate::control::law_returns_deliver(s1, m1, v);
                let (s2, m2) = s1.step(m1);
                assert(s1.run(m1, (n - 1) as nat) == s2.run(m2, (n - 2) as nat));
                assert(s2.run(m2, (n - 2) as nat) == (s2, m2));
                assert(s2.objs == u.objs && s2.builtins == u.builtins) by {
                    reveal(State::finish);
                    let g = u.push_root(v.0);
                    assert(g.flush_slots(base, next.flush, 0) == (g, Ok::<(), Value>(())));
                }
            }
        },
        Flow::Throw(v) => {
            reveal_with_fuel(State::raise, 2);
            assert(m1.status == Status::Raised(v));
            assert(s1.run(m1, (n - 1) as nat) == (s1, m1));
        },
        Flow::Float { call, n: k } => {
            assert(m1.status == Status::Float(call));
            assert(s1.run(m1, (n - 1) as nat) == (s1, m1));
        },
        _ => {},
    }
}

/// Sources compute what they say. The source of two numbers with an operator between them
/// is lowered to a body, and that body, run in a runtime whose heap is in order and has
/// room for the numbers, evaluates to what the operator's text means on them: sums,
/// differences and products wrap around, a quotient is rounded toward zero and a
/// remainder has the dividend's sign, a division by zero raises an exception, and a
/// comparison gives the truth value of the comparison of the numbers.
pub proof fn law_sources_evaluate(
    s: State,
    fl: Seq<u64>,
    body: Rc<Body>,
    x: nat,
    w: Seq<u8>,
    y: nat,
    t: State,
)
    requires
        x <= i64::MAX,
        y <= i64::MAX,
        tightness(w) is Some,
        t.lower_source(binary_source(x, w, y), fl).1 is Ok ==> body_view(*body)
            == t.lower_source(binary_source(x, w, y), fl).1->Ok_0,
        s.healthy(),
        s.described(),
        ints_ready(s),
        s.roots.len() + 2 <= usize::MAX,
        room_for(s.push_frame(2), x as i64, y as i64),
        room_for(s.push_frame(2), y as i64, x as i64),
    ensures
        t.lower_source(binary_source(x, w, y), fl).1 is Ok,
        ({
            let (e, m) = s.begin(body, Seq::empty(), Seq::empty());
            evaluates(w, x as i64, y as i64, s, e, m)
        }),
{
    let (a, c) = (x as i64, y as i64);
    lemma_lowered(t, fl, x, w, y);
    let b = binary_source(x, w, y);
    let i = (decimal(x).len() + 1) as int;
    lemma_read(b, i, 0, w);
    let op = read_op_text(b, i, 0, tightness(w)->Some_0)->Some_0;
    let (f, swap) = operation(op);
    let (vx, vy) = (Op::Int(a), Op::Int(c));
    let args = if swap {
        seq![vy, vx]
    } else {
        seq![vx, vy]
    };
    assert(body_view(*body).code.len() == 2);
    assert(stmt_view(body.code@[0]) == body_view(*body).code[0]);
    assert(stmt_view(body.code@[1]) == body_view(*body).code[1]);
    let base = s.roots.len() as int;
    let (l, r) = if swap {
        (c, a)
    } else {
        (a, c)
    };
    assert(args =~= seq![Op::Int(l), Op::Int(r)]);
    let u = lemma_first(s, body.code@[0], f, l, r);
    lemma_second(s, body, u, w, op, a, c);
}

/// The first statement of a lowered operator.
proof fn lemma_first(s: State, stmt: Stmt, f: Builtin, l: i64, r: i64) -> (u: State)
    requires
        stmt_view(stmt) == StmtV::Call(f, seq![Op::Int(l), Op::Int(r)]),
        s.healthy(),
        s.described(),
        ints_ready(s),
        room_for(s.push_frame(2), l, r),
    ensures
        u.builtins == s.builtins,
        u.roots.len() == s.roots.len() + 2,
        crate::operators::comes_to(
            f,
            l,
            r,
            u,
            s.push_frame(2).exec_stmt(s.roots.len() as int, 0, 0, stmt),
            s.roots.len() as int,
        ),
{
    let args = seq![Op::Int(l), Op::Int(r)];
    let base = s.roots.len() as int;
    let g = s.push_frame(2);
    assert(s.in_order()) by {
        reveal(State::in_order);
    }
    let nulls = seq![NULL, NULL];
    assert(g.roots =~= s.roots + nulls);
    assert(g =~= s.push_roots(nulls));
    lemma_hold(s, nulls);
    assert(ints_ready(g)) by {
        assert(forall|off: u32, k: int| #[trigger] g.layout_word(off, k) == s.layout_word(off, k));
        crate::writes::lemma_holds_same(s, g, s.builtin(id::INT64), 0);
    }
    let (u, p, q) = lemma_read_literals(g, base, 0, l, r);
    crate::operators::lemma_exec_call(g, base, 0, 0, stmt, f, args);
    crate::operators::lemma_builtin(g, u, base, 0, 0, f, args, p, q, l, r);
    u
}

/// The end of a lowered operator.
proof fn lemma_second(s: State, body: Rc<Body>, u: State, w: Seq<u8>, op: BinOp, x: i64, y: i64)
    requires
        tightness(w) is Some,
        texts_read(w, op),
        u.builtins == s.builtins,
        u.roots.len() == s.roots.len() + 2,
        x >= 0,
        ({
            let (f, swap) = operation(op);
            let base = s.roots.len() as int;
            let out = s.push_frame(2).exec_stmt(base, 0, 0, body.code@[0]);
            if swap {
                crate::operators::comes_to(f, y, x, u, out, base)
            } else {
                crate::operators::comes_to(f, x, y, u, out, base)
            }
        }),
        body.nslots == 0,
        body.code@.len() == 2,
        stmt_view(body.code@[1]) == StmtV::Return(Op::Ssa(0)),
        s.roots.len() + 2 <= usize::MAX,
    ensures
        ({
            let (e, m) = s.begin(body, Seq::empty(), Seq::empty());
            evaluates(w, x, y, s, e, m)
        }),
{
    let base = s.roots.len() as int;
    let out = s.push_frame(2).exec_stmt(base, 0, 0, body.code@[0]);
    crate::operators::lemma_by_text(w, op, u, out, base, x, y);
    lemma_two_steps(s, body);
    let (e, m) = s.begin(body, Seq::empty(), Seq::empty());
    lemma_ends(w, x, y, s, u, out, base, e, m);
}

/// From the outcome of the first statement to the end of the program.
#[verifier::rlimit(60)]
#[verifier::spinoff_prover]
proof fn lemma_ends(
    w: Seq<u8>,
    x: i64,
    y: i64,
    s: State,
    u: State,
    out: (State, Flow),
    base: int,
    e: State,
    m: MachineV,
)
    requires
        tightness(w) is Some,
        computes(w, x, y, u, out, base),
        u.builtins == s.builtins,
        u.roots.len() == base + 2,
        base >= 0,
        x >= 0,
        out.1 == Flow::Next && out.0.roots.len() == base + 2 ==> m.status == Status::Returned(
            Value(out.0.roots[base]),
        ) && e.objs == out.0.objs && e.builtins == out.0.builtins,
        out.1 matches Flow::Throw(v) ==> m.status == Status::Raised(v),
        out.1 matches Flow::Float { call, n } ==> m.status == Status::Float(call),
    ensures
        evaluates(w, x, y, s, e, m),
{
    assert forall|n: i64| #[trigger] leaves_int(u, out, base, n) implies returned_int(
        s,
        e,
        m,
        n,
    ) by {
        let (p, q) = choose|p: u32, q: u32|
            out.0.roots[base] == #[trigger] beside(u, p, q).box_int(n).1;
        assert(beside(u, p, q).builtins == s.builtins);
    }
    if raises_division(u, out) {
        assert(u.singleton(id::DIVIDEERROR) == out.1->Throw_0.0);
        assert(raised_division(s, e, m));
    }
    if w == seq![0xc3u8, 0xb7u8] && y != 0 {
        let n = choose|n: i64| #[trigger] leaves_int(u, out, base, n) && remains(x, y, x - n * y);
        assert(returned_int(s, e, m, n) && remains(x, y, x - n * y));
    }
    if w == seq![37u8] && y != 0 {
        let (n, k) = choose|n: i64, k: int| #[trigger]
            leaves_int(u, out, base, n) && remains(x, y, n as int) && x == #[trigger] times(k, y)
                + n;
        assert(returned_int(s, e, m, n) && remains(x, y, n as int) && x == times(k, y) + n);
    }
}

} // verus!
