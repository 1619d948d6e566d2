//! What the statements on arrays, fields and exceptions read and write.

use vstd::prelude::*;
use crate::bytes::{lemma_word_read_other, lemma_word_read_write, with_word};
use crate::control::root_of;
use crate::handlers::{about_to, flow_of, lemma_next, raises, same_calls};
use crate::id;
use crate::interp_spec::{frame_size, Flow, MachineV};
use crate::ir::{Op, Stmt};
use crate::memory::DATA;
use crate::object::lemma_alloc_object_keeps;
use crate::operators::holds_int;
use crate::region::NULL;
use crate::state::{State, Value};
use crate::value::law_unbox_after_box;
use crate::writes::lemma_barrier;

verus! {

/// Whether an operand is a slot or a result that holds `v`.
pub open spec fn operand_is(s: State, m: MachineV, op: Op, v: u32) -> bool {
    root_of(m, op) matches Some(r) && 0 <= r < s.roots.len() && s.roots[r] == v
}

/// Whether an operand is a slot or a result that holds the integer `k`.
pub open spec fn operand_counts(s: State, m: MachineV, op: Op, k: i64) -> bool {
    holds_int(s, m.acts.last().base as int, m.acts.last().body.nslots as int, op, k)
}

/// Whether the roots of the topmost activation are there.
pub open spec fn framed(s: State, m: MachineV) -> bool {
    m.acts.last().base + frame_size(m.acts.last().body) <= s.roots.len()
}

/// Whether the step from `s` and `m` ends the statement with the result `v` and goes on
/// to the next one.
pub open spec fn yields(s: State, m: MachineV, v: u32) -> bool {
    let a = m.acts.last();
    let (e, n) = s.step(m);
    &&& e.roots == s.roots.update(a.base + a.body.nslots + a.ip, v)
    &&& same_calls(m, n)
    &&& n.acts.last().ip == a.ip + 1
    &&& n.acts.last().handlers == a.handlers
}

/// Whether `a` is an array of references that lies within its buffer.
pub open spec fn array_of_refs(s: State, a: u32) -> bool {
    let b = s.arr_mem(a);
    &&& s.is_array(s.tag(a))
    &&& s.inline_size(s.mem_elem(b)) is None
    &&& !s.is_zero_size(s.mem_elem(b))
    &&& s.arr_offset(a) + s.arr_len(a) <= s.mem_len(b)
}

/// The reference `j` places after the first one of the array `a`.
pub open spec fn place(s: State, a: u32, j: int) -> u32 {
    s.word(s.arr_mem(a), DATA + 4 * (s.arr_offset(a) + j))
}

/// The read of an element of an array of references gives the first one for the index
/// one, the next one for two, and so on; it raises an exception exactly for an index that
/// is less than one or greater than the array's length, and for a place that was never
/// assigned.
pub proof fn law_indices_count_from_one(s: State, m: MachineV, a: Op, idx: Op, v: u32, k: i64)
    requires
        about_to(m, Stmt::ArrayRef(a, idx)),
        operand_is(s, m, a, v),
        operand_counts(s, m, idx, k),
        array_of_refs(s, v),
        framed(s, m),
    ensures
        ({
            let r = place(s, v, k - 1);
            if 1 <= k <= s.arr_len(v) && r != NULL {
                yields(s, m, r) && s.step(m).0.objs == s.objs
            } else {
                flow_of(s, m) is Throw
            }
        }),
{
    reveal(State::step);
    reveal(State::exec_stmt);
    reveal(State::follow);
    reveal(State::do_array_ref);
    reveal(State::index_checked);
    reveal(State::mem_get);
    lemma_next(m.acts.last());
}

/// Whether a value may be stored in the array of references `v`.
pub open spec fn takes_refs(s: State, v: u32, x: u32) -> bool {
    let b = s.arr_mem(v);
    &&& array_of_refs(s, v)
    &&& s.obj(b) is Some
    &&& s.obj(v) is Some
    &&& v / 8 != b / 8
    &&& s.mem_elem(b) == s.builtin(id::ANY) || s.mem_elem(b) == s.tag(x)
    &&& s.data(b).len() == DATA + 4 * s.mem_len(b)
}

/// The store of a reference in an array.
proof fn lemma_store(s: State, v: u32, k: int, x: u32)
    requires
        takes_refs(s, v, x),
        1 <= k <= s.arr_len(v),
    ensures
        ({
            let (t, r) = s.arr_set(v, (k - 1) as u32, x);
            &&& r is Ok
            &&& t == (State { objs: t.objs, remembered: t.remembered, ..s })
            &&& t.arr_len(v) == s.arr_len(v)
            &&& place(t, v, k - 1) == x
            &&& forall|j: int|
                0 <= j < s.arr_len(v) && j != k - 1 ==> #[trigger] place(t, v, j) == place(s, v, j)
        }),
{
    reveal(State::mem_set);
    let b = s.arr_mem(v);
    let at = DATA + 4 * (s.arr_offset(v) + k - 1);
    assert(s.push_roots(seq![b, x]).pop_roots(2) =~= s);
    assert(s.push_roots(seq![b, x]).tag(x) == s.tag(x));
    let t = s.set_ref(b, at, x);
    assert(s.arr_set(v, (k - 1) as u32, x) == (t, Ok::<(), Value>(())));
    let w = s.write_barrier(b, x);
    lemma_barrier(s, b, x);
    assert(w.obj(b) is Some);
    assert(w.data(b) == s.data(b) && w.data(v) == s.data(v));
    assert(t.data(v) == s.data(v));
    assert(t.data(b) == with_word(s.data(b), at, x));
    lemma_word_read_write(s.data(b), at, x);
    assert forall|j: int| 0 <= j < s.arr_len(v) && j != k - 1 implies #[trigger] place(t, v, j)
        == place(s, v, j) by {
        lemma_word_read_other(s.data(b), at, DATA + 4 * (s.arr_offset(v) + j), x);
    }
}

/// The assignment to an element of an array of references puts the value at the place
/// that the index counts to from one, and nowhere else in the array; its result is the
/// value. It raises an exception exactly for an index that is less than one or greater
/// than the array's length.
pub proof fn law_assignments_reach_one_element(
    s: State,
    m: MachineV,
    a: Op,
    idx: Op,
    rhs: Op,
    v: u32,
    k: i64,
    x: u32,
)
    requires
        about_to(m, Stmt::ArraySet(a, idx, rhs)),
        operand_is(s, m, a, v),
        operand_counts(s, m, idx, k),
        operand_is(s, m, rhs, x),
        takes_refs(s, v, x),
        framed(s, m),
    ensures
        ({
            let e = s.step(m).0;
            if 1 <= k <= s.arr_len(v) {
                &&& yields(s, m, x)
                &&& e.arr_len(v) == s.arr_len(v)
                &&& place(e, v, k - 1) == x
                &&& forall|j: int|
                    0 <= j < s.arr_len(v) && j != k - 1 ==> #[trigger] place(e, v, j) == place(
                        s,
                        v,
                        j,
                    )
            } else {
                flow_of(s, m) is Throw
            }
        }),
{
    reveal(State::step);
    reveal(State::exec_stmt);
    reveal(State::follow);
    reveal(State::do_array_set);
    reveal(State::index_checked);
    lemma_next(m.acts.last());
    if 1 <= k <= s.arr_len(v) {
        lemma_store(s, v, k as int, x);
        let t = s.arr_set(v, (k - 1) as u32, x).0;
        let e = s.step(m).0;
        assert(e == (State { roots: e.roots, ..t }));
        assert forall|j: int| #[trigger] place(e, v, j) == place(t, v, j) by {
            assert(e.data(v) == t.data(v));
            assert(e.data(e.arr_mem(v)) == t.data(e.arr_mem(v)));
        }
    }
}

/// The read of a field gives the reference at the place of the field of that name,
/// wherever it stands among the names of the type's fields. It raises an exception if no
/// field has the name.
pub proof fn law_fields_are_found_by_name(s: State, m: MachineV, op: Op, name: u32, v: u32, i: u32)
    requires
        about_to(m, Stmt::GetField(op, name)),
        operand_is(s, m, op, v),
        framed(s, m),
        s.field_names(s.tag(v)) != NULL,
        ({
            let t = s.tag(v);
            let names = s.field_names(t);
            ||| forall|j: int|
                0 <= j < s.svec_len(names) ==> #[trigger] s.svec_ref(names, j) != name
            ||| {
                &&& i < s.svec_len(names) && i < s.nfields_of(t)
                &&& s.field_isptr(t, i as int)
                &&& forall|j: int|
                    0 <= j < s.svec_len(names) ==> (#[trigger] s.svec_ref(names, j) == name <==> j
                        == i)
            }
        }),
    ensures
        ({
            let t = s.tag(v);
            let names = s.field_names(t);
            if i < s.svec_len(names) && s.svec_ref(names, i as int) == name {
                yields(s, m, s.word(v, s.field_offset(t, i as int) as int))
            } else {
                flow_of(s, m) is Throw
            }
        }),
{
    reveal(State::step);
    reveal(State::exec_stmt);
    reveal(State::follow);
    reveal(State::do_get_field);
    reveal(State::get_nth_field);
    lemma_next(m.acts.last());
    lemma_position(s, s.field_names(s.tag(v)), name, 0);
}

/// The position of a name is one where it stands; there is one if the name occurs.
proof fn lemma_position(s: State, names: u32, sym: u32, i: int)
    requires
        0 <= i,
    ensures
        match s.name_position(names, sym, i) {
            Some(k) => i <= k < s.svec_len(names) && s.svec_ref(names, k as int) == sym,
            None => forall|j: int|
                i <= j < s.svec_len(names) ==> #[trigger] s.svec_ref(names, j) != sym,
        },
    decreases s.svec_len(names) - i,
{
    if i < s.svec_len(names) && s.svec_ref(names, i) != sym {
        lemma_position(s, names, sym, i + 1);
    }
}

/// The end of a handler forgets the exceptions that came since the handler was begun, and
/// no others.
pub proof fn law_handled_exceptions_are_forgotten(s: State, m: MachineV, op: Op, d: i64)
    requires
        about_to(m, Stmt::PopException(op)),
        operand_counts(s, m, op, d),
        0 <= d <= s.exc.len(),
    ensures
        ({
            let (e, n) = s.step(m);
            &&& e.exc == s.exc.take(d as int)
            &&& e.objs == s.objs
            &&& e.roots == s.roots
            &&& same_calls(m, n)
            &&& n.acts.last().ip == m.acts.last().ip + 1
        }),
{
    reveal(State::step);
    reveal(State::exec_stmt);
    reveal(State::follow);
    lemma_next(m.acts.last());
}

/// The statement that raises the handled exception again goes on in the innermost handler
/// that is still active, with the same exception the one being handled, and no other.
pub proof fn law_exceptions_are_raised_again(s: State, m: MachineV)
    requires
        about_to(m, Stmt::Rethrow),
        m.acts.last().handlers.len() > 0,
    ensures
        ({
            let (e, n) = s.step(m);
            let hs = m.acts.last().handlers;
            &&& e == s
            &&& same_calls(m, n)
            &&& n.acts.last().ip == hs[hs.len() - 1]
            &&& n.acts.last().handlers == hs.take(hs.len() - 1)
        }),
{
    reveal(State::step);
    reveal(State::exec_stmt);
    reveal(State::follow);
    reveal(State::raise);
    let hs = m.acts.last().handlers;
    assert(hs.take(hs.len() - 1) =~= hs.drop_last());
}

/// The root that holds the result of the statement at hand.
pub open spec fn result_at(m: MachineV) -> int {
    m.acts.last().base + m.acts.last().body.nslots + m.acts.last().ip
}

/// Whether integers are boxes of eight bytes.
pub open spec fn int_boxes(s: State) -> bool {
    s.size_of(s.builtin(id::INT64)) == 8 && s.builtin(id::INT64) % 4 == 0
}

/// The length of an array is given as an integer, where there is memory for one. What is
/// no array has no length.
pub proof fn law_lengths_are_given(s: State, m: MachineV, a: Op, v: u32)
    requires
        about_to(m, Stmt::Len(a)),
        operand_is(s, m, a, v),
        framed(s, m),
        int_boxes(s),
    ensures
        ({
            let (e, n) = s.step(m);
            let x = e.roots[result_at(m)];
            if s.is_array(s.tag(v)) {
                &&& n.acts.last().ip == m.acts.last().ip + 1
                &&& x != NULL ==> e.unbox_int(x) == s.arr_len(v)
            } else {
                flow_of(s, m) is Throw
            }
        }),
{
    reveal(State::step);
    reveal(State::exec_stmt);
    reveal(State::follow);
    reveal(State::do_len);
    reveal(State::box64);
    lemma_next(m.acts.last());
    let k = s.arr_len(v) as i64;
    law_unbox_after_box(s, k);
    lemma_alloc_object_keeps(s, s.builtin(id::INT64), 8);
    let (t, x) = s.box_int(k);
    assert(t.roots == s.roots);
    if s.is_array(s.tag(v)) {
        let e = s.step(m).0;
        assert(e == t.with_root(result_at(m), x));
        assert(e.data(x) == t.data(x));
    }
}

/// The beginning of a handler gives the number of exceptions that are being handled, to
/// which the end of the handler goes back, where there is memory for it.
pub proof fn law_handlers_count_exceptions(s: State, m: MachineV, at: usize)
    requires
        about_to(m, Stmt::Enter(at)),
        framed(s, m),
        int_boxes(s),
        s.exc.len() <= i64::MAX,
    ensures
        ({
            let (e, n) = s.step(m);
            let x = e.roots[result_at(m)];
            &&& e.exc == s.exc
            &&& x != NULL ==> e.unbox_int(x) == s.exc.len()
        }),
{
    reveal(State::step);
    reveal(State::exec_stmt);
    reveal(State::follow);
    reveal(State::box64);
    lemma_next(m.acts.last());
    let k = s.exc.len() as i64;
    law_unbox_after_box(s, k);
    lemma_alloc_object_keeps(s, s.builtin(id::INT64), 8);
    let (t, x) = s.box_int(k);
    assert(t.roots == s.roots);
    let e = s.step(m).0;
    assert(e == t.with_root(result_at(m), x));
    assert(e.data(x) == t.data(x));
}

/// A statement that throws raises the value of its operand, and one that returns hands
/// that value to the caller.
pub proof fn law_operands_are_thrown_and_returned(s: State, m: MachineV, op: Op, v: u32)
    requires
        about_to(m, Stmt::Throw(op)) || about_to(m, Stmt::Return(op)),
        operand_is(s, m, op, v),
    ensures
        about_to(m, Stmt::Throw(op)) ==> raises(s, m, Value(v)),
        about_to(m, Stmt::Return(op)) ==> flow_of(s, m) == Flow::Return(Value(v)),
{
    reveal(State::exec_stmt);
}

} // verus!
