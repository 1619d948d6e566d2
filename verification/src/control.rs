//! How control moves: jumps, calls and returns.

use std::rc::Rc;
use vstd::prelude::*;
use crate::dispatch::{applies, law_most_specific_is_selected, narrowest, traceless};
use crate::handlers::{about_to, flow_of, lemma_next, same_calls};
use crate::interp_spec::{frame_size, Flow, MachineV, Status, MAX_FRAME};
use crate::ir::{Body, Entry, Op, Stmt};
use crate::region::NULL;
use crate::state::{State, Value};

verus! {

/// Whether the topmost activation runs and its next statement has the flow `f`.
pub open spec fn flows(s: State, m: MachineV, f: Flow) -> bool {
    &&& m.status == Status::Running
    &&& m.acts.len() > 0
    &&& m.acts.last().ip < m.acts.last().body.code@.len()
    &&& flow_of(s, m) == f
}

/// The state after the statement at hand, before control moves.
pub open spec fn done(s: State, m: MachineV) -> State {
    let a = m.acts.last();
    s.exec_stmt(a.base as int, a.body.nslots as int, a.ip as int, a.body.code@[a.ip as int]).0
}

/// The root that an operand names, for a slot or an earlier result.
pub open spec fn root_of(m: MachineV, op: Op) -> Option<int> {
    let a = m.acts.last();
    match op {
        Op::Slot(k) => Some(a.base + k),
        Op::Ssa(i) => Some(a.base + a.body.nslots + i),
        _ => None,
    }
}

/// A conditional jump is taken exactly if its condition is false; otherwise control goes
/// on to the next statement. An unconditional jump is always taken. Neither changes
/// anything else.
pub proof fn law_jumps(s: State, m: MachineV, cond: Op, target: usize)
    requires
        root_of(m, cond) matches Some(r) && 0 <= r < s.roots.len(),
        about_to(m, Stmt::GotoIfNot(cond, target)) || about_to(m, Stmt::Goto(target)),
    ensures
        ({
            let (e, n) = s.step(m);
            let c = s.roots[root_of(m, cond)->Some_0];
            &&& e == s
            &&& same_calls(m, n)
            &&& n.acts.last().handlers == m.acts.last().handlers
            &&& about_to(m, Stmt::Goto(target)) ==> n.acts.last().ip == target
            &&& about_to(m, Stmt::GotoIfNot(cond, target)) && s.byte(c, 0) == 0
                ==> n.acts.last().ip == target
            &&& about_to(m, Stmt::GotoIfNot(cond, target)) && s.byte(c, 0) != 0
                ==> n.acts.last().ip == m.acts.last().ip + 1
        }),
{
    reveal(State::step);
    reveal(State::exec_stmt);
    reveal(State::follow);
    lemma_next(m.acts.last());
}

/// An assignment puts the value of its operand into the slot, and makes it the result of
/// the statement; no other root changes.
pub proof fn law_assignments(s: State, m: MachineV, slot: usize, op: Op)
    requires
        about_to(m, Stmt::Assign(slot, op)),
        root_of(m, op) matches Some(r) && 0 <= r < s.roots.len() && s.roots[r] != NULL,
        slot < m.acts.last().body.nslots,
        m.acts.last().base + frame_size(m.acts.last().body) <= s.roots.len(),
    ensures
        ({
            let (e, n) = s.step(m);
            let a = m.acts.last();
            let v = s.roots[root_of(m, op)->Some_0];
            &&& e.roots == s.roots.update(a.base + slot, v).update(
                a.base + a.body.nslots + a.ip,
                v,
            )
            &&& e.objs == s.objs
            &&& same_calls(m, n)
            &&& n.acts.last().ip == a.ip + 1
            &&& n.acts.last().handlers == a.handlers
        }),
{
    reveal(State::step);
    reveal(State::exec_stmt);
    reveal(State::follow);
    lemma_next(m.acts.last());
}

/// Seeds fill the leading slots.
proof fn lemma_seed(s: State, base: int, seeds: Seq<(usize, Value)>, i: int)
    requires
        0 <= i <= seeds.len(),
        0 <= base,
        forall|k: int| 0 <= k < seeds.len() ==> (#[trigger] seeds[k]).0 == k,
        base + seeds.len() <= s.roots.len(),
    ensures
        ({
            let e = s.seed(base, seeds, i);
            &&& e == (State { roots: e.roots, ..s })
            &&& e.roots.len() == s.roots.len()
            &&& forall|k: int|
                i <= k < seeds.len() ==> e.roots[base + k] == (#[trigger] seeds[k]).1.0
            &&& forall|j: int|
                0 <= j < s.roots.len() && !(base + i <= j < base + seeds.len())
                    ==> #[trigger] e.roots[j] == s.roots[j]
        }),
    decreases seeds.len() - i,
{
    if i < seeds.len() {
        let t = s.with_root(base + seeds[i].0, seeds[i].1.0);
        lemma_seed(t, base, seeds, i + 1);
        let e = s.seed(base, seeds, i);
        assert(e == t.seed(base, seeds, i + 1));
        assert(e.roots[base + i] == t.roots[base + i]);
    }
}

/// A call begins the callee at its first statement, without handlers, with the arguments
/// in its leading slots in order and nothing in the others. The caller waits where it is.
pub proof fn law_calls_pass_arguments(
    s: State,
    m: MachineV,
    body: Rc<Body>,
    n: usize,
    first: usize,
    slot: Option<usize>,
)
    requires
        flows(s, m, Flow::Call { body, n, first, slot }),
        first <= n <= done(s, m).roots.len() <= usize::MAX,
        n - first <= body.nslots,
        frame_size(body) <= MAX_FRAME,
    ensures
        ({
            let e = done(s, m);
            let (e1, m1) = s.step(m);
            let base = e.roots.len() as int;
            let callee = m1.acts.last();
            let caller = m1.acts[m1.acts.len() - 2];
            &&& m1.status == Status::Running
            &&& m1.acts.len() == m.acts.len() + 1
            &&& callee.body == body && callee.ip == 0 && callee.handlers.len() == 0 && callee.base
                == base
            &&& caller.body == m.acts.last().body && caller.ip == m.acts.last().ip
                && caller.handlers == m.acts.last().handlers
            &&& e1.roots.len() == base + frame_size(body)
            &&& forall|i: int|
                0 <= i < n - first ==> #[trigger] e1.roots[base + i] == e.roots[base - n + first
                    + i]
            &&& forall|i: int|
                n - first <= i < frame_size(body) ==> #[trigger] e1.roots[base + i] == NULL
            &&& forall|j: int| 0 <= j < base ==> #[trigger] e1.roots[j] == e.roots[j]
        }),
{
    reveal(State::step);
    reveal(State::follow);
    reveal(State::activate);
    let e = done(s, m);
    let base = e.roots.len() as int;
    let seeds = e.call_seeds(n as int, first as int);
    let p = e.push_frame(frame_size(body) as nat);
    assert(seeds.len() == n - first);
    assert forall|k: int| 0 <= k < seeds.len() implies (#[trigger] seeds[k]).0 == k && seeds[k].1.0
        == e.roots[base - n + first + k] by {
        let vals = e.values_at(base - n + first, n - first);
        assert(vals[k] == Value(e.root_at(base - n + first + k)));
    }
    lemma_seed(p, base, seeds, 0);
    let (e1, m1) = s.step(m);
    assert(e1 == p.seed(base, seeds, 0));
    assert forall|i: int| 0 <= i < n - first implies #[trigger] e1.roots[base + i] == e.roots[base
        - n + first + i] by {
        assert(e1.roots[base + i] == seeds[i].1.0);
    }
    let pend = m1.acts[m1.acts.len() - 2];
    assert(pend.body == m.acts.last().body);
}

/// A return gives the value to the caller: it becomes the result of the calling
/// statement, and goes to the slot that the call names, if any. The callee and the roots
/// that the call kept are gone, and the caller goes on behind the call. The first
/// activation of a program ends the program with its value.
#[verifier::rlimit(40)]
pub proof fn law_returns_deliver(s: State, m: MachineV, v: Value)
    requires
        flows(s, m, Flow::Return(v)),
        m.acts.last().flush.len() == 0,
        m.acts.len() > 1 ==> {
            let caller = m.acts[m.acts.len() - 2];
            let e = done(s, m);
            &&& caller.ip < caller.body.code@.len()
            &&& caller.pending matches Some(p) && {
                &&& caller.base + frame_size(caller.body) + p.n + frame_size(m.acts.last().body)
                    <= e.roots.len()
                &&& p.slot matches Some(k) ==> k < caller.body.nslots
            }
        },
    ensures
        ({
            let e = done(s, m);
            let (e1, m1) = s.step(m);
            let size = frame_size(m.acts.last().body);
            if m.acts.len() == 1 {
                m1.status == Status::Returned(v) && m1.acts.len() == 0
            } else {
                let caller = m.acts[m.acts.len() - 2];
                let top = m1.acts.last();
                let p = caller.pending->Some_0;
                &&& m1.status == Status::Running
                &&& m1.acts.len() == m.acts.len() - 1
                &&& top.body == caller.body && top.base == caller.base && top.handlers
                    == caller.handlers
                &&& top.ip == caller.ip + 1
                &&& top.pending is None
                &&& e1.roots.len() == e.roots.len() - size - p.n
                &&& e1.roots[caller.base + caller.body.nslots + caller.ip] == v.0
                &&& p.slot matches Some(k) ==> e1.roots[caller.base + k] == v.0
                &&& forall|j: int|
                    0 <= j < e1.roots.len() && j != caller.base + caller.body.nslots + caller.ip
                        && !(p.slot matches Some(k) && j == caller.base + k)
                        ==> #[trigger] e1.roots[j] == e.roots[j]
            }
        }),
{
    reveal(State::step);
    reveal(State::follow);
    reveal(State::finish);
    let e = done(s, m);
    let top = m.acts.last();
    let f = e.push_root(v.0);
    assert(f.flush_slots(top.base as int, top.flush, 0) == (f, Ok::<(), Value>(())));
    assert(f.pop_roots(1).roots =~= e.roots);
    assert(f.pop_roots(1) =~= e);
    if m.acts.len() > 1 {
        let caller = m.acts[m.acts.len() - 2];
        assert(m.acts.drop_last().last() == caller);
        lemma_next(caller);
    }
}

/// The values of some operands that are slots or earlier results.
pub open spec fn operand_roots(s: State, m: MachineV, args: Seq<Op>) -> Seq<u32> {
    Seq::new(
        args.len(),
        |i: int| match root_of(m, args[i]) {
            Some(r) => s.root_at(r),
            None => NULL,
        },
    )
}

/// Whether all operands are slots or earlier results.
pub open spec fn all_rooted(s: State, m: MachineV, args: Seq<Op>) -> bool {
    forall|i: int|
        0 <= i < args.len() ==> (root_of(m, #[trigger] args[i]) matches Some(r) && 0 <= r
            < s.roots.len())
}

/// Operands are read to the top of the shadow stack in order.
proof fn lemma_read_args(s: State, t: State, m: MachineV, args: Seq<Op>, j: int)
    requires
        all_rooted(s, m, args),
        0 <= j <= args.len(),
        t.roots.len() == s.roots.len() + args.len(),
        t == (State { roots: t.roots, ..s }),
        forall|i: int| 0 <= i < s.roots.len() ==> #[trigger] t.roots[i] == s.roots[i],
        forall|i: int|
            0 <= i < j ==> t.roots[s.roots.len() + i] == #[trigger] operand_roots(s, m, args)[i],
    ensures
        ({
            let a = m.acts.last();
            t.read_args(
                a.base as int,
                a.body.nslots as int,
                args,
                s.roots.len() as int,
                j,
            ) == (State { roots: s.roots + operand_roots(s, m, args), ..s }, Ok::<(), Value>(()))
        }),
    decreases args.len() - j,
{
    let a = m.acts.last();
    let vals = operand_roots(s, m, args);
    if j < args.len() {
        let r = root_of(m, args[j])->Some_0;
        assert(0 <= r < s.roots.len());
        let v = t.roots[r];
        assert(v == vals[j]);
        let t1 = t.with_root(s.roots.len() + j, v);
        lemma_read_args(s, t1, m, args, j + 1);
    } else {
        assert(t.roots =~= s.roots + vals);
    }
}

/// A call of a generic function runs the most specific applicable method. The arguments
/// are handed to the method whose signature is above the tuple of their types and, where
/// there is such a one among the applicable methods, below the signatures of all of them.
/// Where no method is applicable the statement's result is null.
pub proof fn law_generic_calls_run_the_most_specific(
    s: State,
    m: MachineV,
    func: u32,
    args: Vec<Op>,
)
    requires
        about_to(m, Stmt::CallGeneric(func, args)),
        all_rooted(s, m, args@),
        ({
            let vals = operand_roots(s, m, args@);
            let p = State { roots: s.roots + vals, ..s };
            let (s1, tup) = p.tuple_type(vals.map_values(|v: u32| s.tag(v)));
            traceless(s1, func, tup) && s1.methods.len() <= usize::MAX
        }),
    ensures
        ({
            let vals = operand_roots(s, m, args@);
            let p = State { roots: s.roots + vals, ..s };
            let (s1, tup) = p.tuple_type(vals.map_values(|v: u32| s.tag(v)));
            let n = args@.len() as usize;
            ||| (forall|i: int| !(#[trigger] applies(s1, func, tup, i))) && flow_of(s, m)
                == Flow::Next
            ||| exists|x: int| {
                &&& #[trigger] applies(s1, func, tup, x)
                &&& (exists|i: int| #[trigger] narrowest(s1, func, tup, i)) ==> narrowest(
                    s1,
                    func,
                    tup,
                    x,
                )
                &&& match s1.methods[x] {
                    Entry { fptr1: Some(index), .. } => flow_of(s, m) == (Flow::Compiled {
                        index,
                        n,
                        first: 0,
                        slot: None,
                    }),
                    Entry { fptr1: None, body: Some(body), .. } => flow_of(s, m) == (Flow::Call {
                        body,
                        n,
                        first: 0,
                        slot: None,
                    }),
                    _ => flow_of(s, m) == Flow::Next,
                }
            }
        }),
{
    reveal(State::exec_stmt);
    reveal(State::do_dispatch);
    let vals = operand_roots(s, m, args@);
    let p = State { roots: s.roots + vals, ..s };
    let types = vals.map_values(|v: u32| s.tag(v));
    let (s1, tup) = p.tuple_type(types);
    assert(args.len() == args@.len());
    let n = args@.len() as usize;
    let f = s.push_frame(args@.len());
    lemma_read_args(s, f, m, args@, 0);
    let at = p.roots.len() - n;
    assert(p.values_at(at, n as int).map_values(|v: Value| p.tag(v.0)) =~= types);
    law_most_specific_is_selected(p, func, types);
    let (e, chosen) = p.select(func, types);
    assert(e.methods == s1.methods) by {
        crate::dispatch::lemma_traceless_selection(p, func, types);
    }
    match chosen {
        Some(x) => {
            assert(applies(s1, func, tup, x as int));
        },
        None => {},
    }
}

} // verus!
