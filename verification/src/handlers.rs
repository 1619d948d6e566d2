//! Where control goes when an exception is raised.

use vstd::prelude::*;
use crate::interp_spec::{after, frame_size, ActV, Flow, MachineV, Status};
use crate::ir::Stmt;
use crate::state::{State, Value};

verus! {

/// Whether the topmost activation runs and is about to run a statement.
pub open spec fn about_to(m: MachineV, stmt: Stmt) -> bool {
    &&& m.status == Status::Running
    &&& m.acts.len() > 0
    &&& m.acts.last().ip < m.acts.last().body.code@.len()
    &&& m.acts.last().body.code@[m.acts.last().ip as int] == stmt
}

/// What the statement at hand does to control.
pub open spec fn flow_of(s: State, m: MachineV) -> Flow {
    let a = m.acts.last();
    s.exec_stmt(a.base as int, a.body.nslots as int, a.ip as int, a.body.code@[a.ip as int]).1
}

/// Whether the statement at hand raises `v`.
pub open spec fn raises(s: State, m: MachineV, v: Value) -> bool {
    &&& m.status == Status::Running
    &&& m.acts.len() > 0
    &&& m.acts.last().ip < m.acts.last().body.code@.len()
    &&& flow_of(s, m) == Flow::Throw(v)
}

/// Whether `n` differs from `m` at most in where its topmost activation stands, in the
/// handlers active there, and in whether it waits.
pub open spec fn same_calls(m: MachineV, n: MachineV) -> bool {
    &&& n.status == m.status
    &&& n.acts.len() == m.acts.len()
    &&& forall|i: int| 0 <= i < m.acts.len() - 1 ==> n.acts[i] == #[trigger] m.acts[i]
    &&& n.acts.last().body == m.acts.last().body
    &&& n.acts.last().base == m.acts.last().base
    &&& n.acts.last().flush == m.acts.last().flush
}

/// A position within a body's code has a next one.
pub proof fn lemma_next(a: ActV)
    requires
        a.ip < a.body.code@.len(),
    ensures
        after(a.ip) == a.ip + 1,
{
    let code = a.body.code;
    assert(code.len() == code@.len());
}

/// A handler that is begun is the innermost one; control goes on behind it.
proof fn lemma_enter(s: State, m: MachineV, a: usize)
    requires
        about_to(m, Stmt::Enter(a)),
    ensures
        ({
            let n = s.step(m).1;
            &&& same_calls(m, n)
            &&& n.acts.last().ip == m.acts.last().ip + 1
            &&& n.acts.last().handlers == m.acts.last().handlers.push(a)
        }),
{
    reveal(State::step);
    reveal(State::exec_stmt);
    reveal(State::follow);
    lemma_next(m.acts.last());
}

/// A raised exception is taken by the handler begun last.
proof fn lemma_raise(s: State, m: MachineV, v: Value)
    requires
        raises(s, m, v),
        m.acts.last().handlers.len() > 0,
    ensures
        ({
            let (e, n) = s.step(m);
            let hs = m.acts.last().handlers;
            &&& same_calls(m, n)
            &&& n.acts.last().ip == hs[hs.len() - 1]
            &&& n.acts.last().handlers == hs.take(hs.len() - 1)
            &&& e.exc.len() > 0 && e.exc[e.exc.len() - 1] == v.0
        }),
{
    reveal(State::step);
    reveal(State::follow);
    reveal(State::raise);
    let hs = m.acts.last().handlers;
    assert(hs.take(hs.len() - 1) =~= hs.drop_last());
}

/// Handlers are taken in the reverse of the order in which they were begun. After a
/// handler at `a` and then one at `b` were begun in one activation, an exception that the
/// next statement raises continues that activation at `b`, with the one at `a` still
/// active; an exception raised there continues it at `a`, with the handlers that were
/// active before. Each time the exception raised is the one being handled.
pub proof fn law_innermost_handler_first(
    s: State,
    m: MachineV,
    a: usize,
    b: usize,
    v: Value,
    t: State,
    k: MachineV,
    w: Value,
)
    requires
        about_to(m, Stmt::Enter(a)),
        about_to(s.step(m).1, Stmt::Enter(b)),
        ({
            let (s1, m1) = s.step(m);
            let (s2, m2) = s1.step(m1);
            &&& raises(s2, m2, v)
            &&& same_calls(s2.step(m2).1, k)
            &&& k.acts.last().handlers == s2.step(m2).1.acts.last().handlers
            &&& raises(t, k, w)
        }),
    ensures
        ({
            let (s1, m1) = s.step(m);
            let (s2, m2) = s1.step(m1);
            let (s3, m3) = s2.step(m2);
            let (s4, m4) = t.step(k);
            &&& same_calls(m, m3) && same_calls(m, m4)
            &&& m3.acts.last().ip == b
            &&& m3.acts.last().handlers == m.acts.last().handlers.push(a)
            &&& s3.exc_current() == v.0
            &&& m4.acts.last().ip == a
            &&& m4.acts.last().handlers == m.acts.last().handlers
            &&& s4.exc_current() == w.0
        }),
{
    let (s1, m1) = s.step(m);
    lemma_enter(s, m, a);
    let (s2, m2) = s1.step(m1);
    lemma_enter(s1, m1, b);
    lemma_raise(s2, m2, v);
    let m3 = s2.step(m2).1;
    let hs = m.acts.last().handlers;
    assert(hs.push(a).push(b).take(hs.len() as int + 1) =~= hs.push(a));
    lemma_raise(t, k, w);
    assert(hs.push(a).take(hs.len() as int) =~= hs);
}

/// A handler that was left takes no exception: beginning one and leaving it again, with
/// other statements of the activation between, keeps the handlers active before.
pub proof fn law_left_handlers_are_gone(s: State, m: MachineV, a: usize, t: State, k: MachineV)
    requires
        about_to(m, Stmt::Enter(a)),
        same_calls(m, k),
        k.acts.last().handlers == s.step(m).1.acts.last().handlers,
        about_to(k, Stmt::Leave(1)),
    ensures
        ({
            let n = t.step(k).1;
            &&& same_calls(m, n)
            &&& n.acts.last().ip == k.acts.last().ip + 1
            &&& n.acts.last().handlers == m.acts.last().handlers
        }),
{
    lemma_enter(s, m, a);
    lemma_next(k.acts.last());
    reveal(State::step);
    reveal(State::exec_stmt);
    reveal(State::follow);
    let hs = m.acts.last().handlers;
    assert(hs.push(a).take(hs.len() as int) =~= hs);
}

/// An exception that no handler of its activation takes is raised in the caller: the
/// callee ends, and the caller continues at its innermost handler. Where the caller has
/// none either, and nothing called it, the program ends with the exception.
pub proof fn law_exceptions_reach_the_caller(s: State, m: MachineV, v: Value)
    requires
        raises(s, m, v),
        m.acts.len() > 1,
        m.acts.last().handlers.len() == 0,
    ensures
        ({
            let (e, n) = s.step(m);
            let below = m.acts[m.acts.len() - 2];
            let hs = below.handlers;
            &&& hs.len() > 0 ==> {
                &&& n.status == Status::Running
                &&& n.acts.len() == m.acts.len() - 1
                &&& n.acts.last().body == below.body && n.acts.last().base == below.base
                &&& n.acts.last().ip == hs[hs.len() - 1]
                &&& n.acts.last().handlers == hs.take(hs.len() - 1)
                &&& e.exc_current() == v.0
            }
            &&& hs.len() == 0 && m.acts.len() == 2 ==> n.status == Status::Raised(v)
                && n.acts.len() == 0
        }),
{
    reveal(State::step);
    reveal(State::follow);
    reveal_with_fuel(State::raise, 3);
    let below = m.acts[m.acts.len() - 2];
    let hs = below.handlers;
    let rest = m.acts.drop_last();
    assert(rest.last() == below);
    if hs.len() > 0 {
        assert(hs.take(hs.len() - 1) =~= hs.drop_last());
    }
}

/// The exception being handled is what the catching statement gives: its result, and
/// the slot it is assigned to.
pub proof fn law_the_caught_exception_is_the_raised_one(
    s: State,
    m: MachineV,
    v: Value,
    slot: usize,
)
    requires
        raises(s, m, v),
        m.acts.last().handlers.len() > 0,
        ({
            let (e, n) = s.step(m);
            let a = n.acts.last();
            &&& about_to(n, Stmt::Caught) || about_to(n, Stmt::AssignCaught(slot))
            &&& slot < a.body.nslots
            &&& a.base + frame_size(a.body) <= e.roots.len()
        }),
    ensures
        ({
            let (e, n) = s.step(m);
            let a = n.acts.last();
            let (e1, n1) = e.step(n);
            &&& e1.roots[a.base + a.body.nslots + a.ip] == v.0
            &&& about_to(n, Stmt::AssignCaught(slot)) ==> e1.roots[a.base + slot] == v.0
            &&& same_calls(n, n1)
            &&& n1.acts.last().ip == a.ip + 1
        }),
{
    lemma_raise(s, m, v);
    lemma_next(s.step(m).1.acts.last());
    reveal(State::step);
    reveal(State::exec_stmt);
    reveal(State::follow);
}

} // verus!
