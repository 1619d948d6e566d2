//! Subtyping of tuples over a variable.

use vstd::prelude::*;
use crate::access::MAX_NESTING;
use crate::bounds::{
    is_below, lemma_join_is, lemma_rooted_types, lemma_verdict, quantifies, sound_types,
};
use crate::env::{lookup, EnvV, Param, Q, VarBinding};
use crate::ground::{law_nested_query, law_plain_query, law_plain_walk};
use crate::id;
use crate::region::NULL;
use crate::state::State;
use crate::subtype_spec::{clear_cov, cov_counts, fold_cov};
use crate::wheres::{lemma_against_datatype, lemma_sub_is};

verus! {

/// Whether `t` is the tuple of the sole member `p`.
pub open spec fn holds_one(s: State, t: u32, p: u32) -> bool {
    &&& s.is_datatype(t)
    &&& s.is_tuple(t)
    &&& !s.is_type_type(t)
    &&& t != s.builtin(id::ANY)
    &&& t != s.builtin(id::BOTTOM)
    &&& s.parameters(t) != NULL
    &&& s.svec_len(s.parameters(t)) == 1
    &&& s.svec_ref(s.parameters(t), 0) == p
}

/// The environment within a `where` type over `v`.
pub open spec fn over(q: Q, v: u32, lb: u32, ub: u32, existential: bool) -> bool {
    &&& q.e.vars.len() == 1
    &&& q.e.vars[0].var == v
    &&& q.e.vars[0].lb == lb
    &&& q.e.vars[0].ub == ub
    &&& q.e.vars[0].existential == existential
    &&& q.e.vars[0].occurs_cov == 0
    &&& q.e.vars[0].cov_diag == 0
    &&& !q.e.vars[0].concrete
    &&& q.e.loffset == 0
    &&& q.e.invdepth == 0
}

/// Whether two environments have the same decisions, and the variable occurred at most
/// once.
pub open spec fn once(q: Q, q1: Q) -> bool {
    &&& q1.e.l == q.e.l
    &&& q1.e.r == q.e.r
    &&& q1.e.vars.len() == 1
    &&& 0 <= q1.e.vars[0].occurs_cov <= 1
    &&& 0 <= q1.e.vars[0].cov_diag <= 1
    &&& !q1.e.vars[0].concrete
}

/// The check of a bound, for plain types, where variables occurred.
#[verifier::rlimit(40)]
proof fn lemma_check(q: Q, a: u32, b: u32, fuel: nat)
    requires
        sound_types(q.s),
        q.s.plain(a),
        q.s.plain(b),
        q.e.vars.len() == 1,
        0 <= q.e.vars[0].cov_diag,
        8 * q.s.objs.len() + 9 <= fuel <= MAX_NESTING,
    ensures
        q.ccheck(a, b, fuel) == (q, is_below(q.s, a, b)),
{
    reveal(Q::ccheck);
    let s = q.s;
    let n = s.objs.len();
    law_plain_query(s, a, b, MAX_NESTING as nat);
    assert(n > 0);
    if a == b || a == s.builtin(id::BOTTOM) || b == s.builtin(id::ANY) {
    } else if a == s.builtin(id::ANY) && s.is_datatype(b) {
        assert(!s.below(a, b, 2 * n)) by {
            if s.name_of(a) == s.name_of(b) {
                assert(s.namesakes(a, b));
            }
            assert(s.super_named(a, s.name_of(b), MAX_NESTING as nat) is None);
        }
    } else if s.obviously_in_union(b, a, MAX_NESTING as nat) {
        crate::ground::lemma_egal_below(s, b, n, a, n, 2 * n, (MAX_NESTING - 1) as nat);
    } else {
        let q0 = q.with_env(EnvV { vars: clear_cov(q.e.vars, false), ..q.e });
        law_nested_query(q0, a, b, Param::Top, 1, (fuel - 1) as nat);
        assert(fold_cov(q0.e.vars, cov_counts(q.e.vars), false) =~= q.e.vars);
        assert(q.e.l.restored(q.e.l.saved()) =~= q.e.l);
    }
}

/// A plain type against a variable that may take a value.
#[verifier::rlimit(40)]
proof fn lemma_taken(q: Q, v: u32, a: u32, lb: u32, ub: u32, fuel: nat)
    requires
        sound_types(q.s),
        q.s.plain(a),
        q.s.plain(ub),
        q.s.is_typevar(v),
        over(q, v, lb, ub, true),
        8 * q.s.objs.len() + 15 <= fuel <= MAX_NESTING,
    ensures
        ({
            let (q1, ok) = q.sub(a, v, Param::Covariant, fuel);
            &&& ok == (a == lb || is_below(q.s, a, ub))
            &&& once(q, q1)
        }),
{
    lemma_taken_is(q, v, a, fuel);
    let q0 = q.record(0, Param::Covariant);
    lemma_check(q0, a, ub, (fuel - 3) as nat);
}

/// A type against a variable that may take a value, step by step.
proof fn lemma_taken_is(q: Q, v: u32, a: u32, fuel: nat)
    requires
        fuel > 3,
        sound_types(q.s),
        q.s.plain(a),
        q.s.is_typevar(v),
        q.e.vars.len() == 1,
        q.e.vars[0].var == v,
        q.e.vars[0].existential,
        q.e.loffset == 0,
    ensures
        ({
            let q0 = q.record(0, Param::Covariant);
            let b = q0.e.vars[0];
            let f = (fuel - 3) as nat;
            let (q1, ok) = q0.ccheck(a, b.ub, f);
            let (s, j) = q1.s.join(q1.e.lb_at(0), a, f);
            q.sub(a, v, Param::Covariant, fuel) == if b.lb == a {
                (q0, true)
            } else if ok {
                (q1.with_state(s).set_lb(0, j), true)
            } else {
                (q1, false)
            }
        }),
{
    reveal(Q::sub);
    reveal(Q::sub_right);
    reveal(Q::sub_vars);
    reveal(Q::sub_var);
    reveal(Q::var_gt);
    reveal(Q::ccheck);
    reveal(State::join);
    assert(q.e.find(v) == Some(0int)) by {
        reveal_with_fuel(lookup, 2);
    }
    assert(q.sub_var(v, a, true, Param::Covariant, (fuel - 1) as nat) == q.var_gt(
        a,
        0,
        Param::Covariant,
        (fuel - 2) as nat,
    ));
    assert(q.sub_vars(a, v, Param::Covariant, fuel) == q.sub_var(
        v,
        a,
        true,
        Param::Covariant,
        (fuel - 1) as nat,
    ));
    assert(q.sub_right(a, v, Param::Covariant, fuel) == q.sub_vars(
        a,
        v,
        Param::Covariant,
        fuel,
    ));
}

/// A variable that stands for each of its values, against a plain type.
#[verifier::rlimit(40)]
proof fn lemma_given(q: Q, v: u32, a: u32, lb: u32, ub: u32, fuel: nat)
    requires
        sound_types(q.s),
        q.s.plain(a),
        q.s.plain(ub),
        q.s.is_typevar(v),
        over(q, v, lb, ub, false),
        8 * q.s.objs.len() + 15 <= fuel <= MAX_NESTING,
    ensures
        ({
            let (q1, ok) = q.sub(v, a, Param::Covariant, fuel);
            &&& ok == is_below(q.s, ub, a)
            &&& once(q, q1)
        }),
{
    let s = q.s;
    let q0 = q.record(0, Param::Covariant);
    let f: nat = (fuel - 3) as nat;
    lemma_given_is(q, v, a, fuel);
    let q1 = q0.with_env(EnvV { vars: clear_cov(q0.e.vars, true), ..q0.e });
    law_plain_query(s, ub, a, MAX_NESTING as nat);
    let n = s.objs.len();
    if ub == s.builtin(id::ANY) && s.is_datatype(a) && a != ub {
        assert(!s.below(ub, a, 2 * n)) by {
            if s.name_of(ub) == s.name_of(a) {
                assert(s.namesakes(ub, a));
            }
            assert(s.super_named(ub, s.name_of(a), MAX_NESTING as nat) is None);
        }
    }
    law_plain_walk(q1, ub, a, Param::Covariant, (f - 2) as nat);
    assert(q1.sub_left_var(ub, a, Param::Covariant, (f - 1) as nat) == (q1, is_below(s, ub, a)))
        by {
        reveal(Q::sub_left_var);
        reveal(Q::sub);
    }
    let vars = fold_cov(q1.e.vars, cov_counts(q0.e.vars), true);
    assert(q0.in_forall_scope(ub, a, Param::Covariant, f) == (
        q1.with_env(EnvV { vars, ..q1.e }),
        is_below(s, ub, a),
    )) by {
        reveal(Q::in_forall_scope);
        reveal(Q::sub_left_var);
    }
}

/// A variable that stands for each of its values, step by step.
proof fn lemma_given_is(q: Q, v: u32, a: u32, fuel: nat)
    requires
        fuel > 3,
        sound_types(q.s),
        q.s.plain(a),
        q.s.is_typevar(v),
        q.e.vars.len() == 1,
        q.e.vars[0].var == v,
        !q.e.vars[0].existential,
        q.e.loffset == 0,
    ensures
        ({
            let q0 = q.record(0, Param::Covariant);
            q.sub(v, a, Param::Covariant, fuel) == q0.in_forall_scope(
                q0.e.vars[0].ub,
                a,
                Param::Covariant,
                (fuel - 3) as nat,
            )
        }),
{
    reveal(Q::sub);
    reveal(Q::sub_right);
    reveal(Q::sub_vars);
    reveal(Q::sub_var);
    reveal(Q::var_lt);
    reveal(Q::in_forall_scope);
    assert(q.e.find(v) == Some(0int)) by {
        reveal_with_fuel(lookup, 2);
    }
    assert(q.sub_var(v, a, false, Param::Covariant, (fuel - 1) as nat) == q.var_lt(
        a,
        0,
        Param::Covariant,
        (fuel - 2) as nat,
    ));
    assert(q.sub_vars(v, a, Param::Covariant, fuel) == q.sub_var(
        v,
        a,
        false,
        Param::Covariant,
        (fuel - 1) as nat,
    ));
    assert(q.sub_right(v, a, Param::Covariant, fuel) == q.sub_vars(
        v,
        a,
        Param::Covariant,
        fuel,
    ));
}

/// Tuples of one member compare by the member.
#[verifier::rlimit(40)]
proof fn lemma_one_member(q: Q, x: u32, y: u32, a: u32, b: u32, fuel: nat)
    requires
        fuel > 8,
        sound_types(q.s),
        x != y,
        holds_one(q.s, x, a),
        holds_one(q.s, y, b),
        q.s.name_of(x) == q.s.name_of(y),
        !q.s.is_vararg(a) && !q.s.is_vararg(b),
    ensures
        q.sub(x, y, Param::Top, fuel) == q.sub(a, b, Param::Covariant, (fuel - 4) as nat),
{
    let s = q.s;
    let px = s.parameters(x);
    let py = s.parameters(y);
    lemma_sub_is(q, x, y, Param::Top, fuel);
    lemma_against_datatype(q, x, y, Param::Top, fuel);
    assert(s.svec_seq(px).len() == 1 && s.svec_seq(py).len() == 1);
    assert(q.sub_datatype(x, y, Param::Top, (fuel - 1) as nat) == q.sub_tuple(
        x,
        y,
        Param::Covariant,
        (fuel - 2) as nat,
    )) by {
        reveal(Q::sub_datatype);
        reveal(Q::sub_tuple);
        assert(s.super_named(x, s.name_of(y), MAX_NESTING as nat) == Some(x));
    }
    assert(q.sub_tuple(x, y, Param::Covariant, (fuel - 2) as nat) == q.sub_tail_start(
        px,
        py,
        1,
        1,
        Param::Covariant,
        (fuel - 3) as nat,
    )) by {
        reveal(Q::sub_tuple);
        reveal(Q::sub_tail_start);
    }
    lemma_tail(q, px, py, a, b, (fuel - 3) as nat);
}

/// The members of tuples of one member.
proof fn lemma_tail(q: Q, px: u32, py: u32, a: u32, b: u32, fuel: nat)
    requires
        fuel > 2,
        q.s.svec_ref(px, 0) == a,
        q.s.svec_ref(py, 0) == b,
        !q.s.is_vararg(a) && !q.s.is_vararg(b),
    ensures
        q.sub_tail_start(px, py, 1, 1, Param::Covariant, fuel) == q.sub(
            a,
            b,
            Param::Covariant,
            (fuel - 1) as nat,
        ),
{
    reveal(Q::sub_tail_start);
    reveal(Q::sub_tail);
    reveal(Q::sub_tail_end);
    reveal(Q::sub);
    let (q1, ok) = q.sub(a, b, Param::Covariant, (fuel - 1) as nat);
    assert(q1.sub_tail_end(1, 1, 0, 0, b, (fuel - 1) as nat) == (q1, true));
    assert(q1.sub_tail(px, py, 1, 1, 1, 1, 0, 0, a, b, Param::Covariant, fuel) == (q1, true));
    assert(q.sub_tail(px, py, 1, 1, 0, 0, 0, 0, NULL, NULL, Param::Covariant, fuel) == if ok {
        q1.sub_tail(px, py, 1, 1, 1, 1, 0, 0, a, b, Param::Covariant, fuel)
    } else {
        (q1, false)
    });
}

/// Entering a variable that occurs once.
proof fn lemma_enter(
    q: Q,
    x: u32,
    u: u32,
    v: u32,
    lb: u32,
    ub: u32,
    r: bool,
    b: VarBinding,
    fuel: nat,
)
    requires
        fuel > 0,
        quantifies(q.s, u, v, lb, ub),
        q.e.vars.len() == 0,
        b == (VarBinding {
            var: v,
            lb,
            ub,
            existential: r,
            occurs_cov: 0i8,
            cov_diag: 0i8,
            occurs_inv: 0i8,
            body_occurs_inv: q.s.occurs_invariant(
                q.s.unionall_body(u),
                v,
                false,
                MAX_NESTING as nat,
            ),
            depth0: q.e.invdepth,
            intvalued: false,
            concrete: false,
            max_offset: 0i8,
            root_base: q.s.roots.len() as usize,
        }),
    ensures
        ({
            let q0 = Q {
                s: q.s.push_roots(seq![lb, ub]),
                e: EnvV { vars: q.e.vars.push(b), ..q.e },
            };
            let body = q.s.unionall_body(u);
            let (q1, ok) = if r {
                q0.sub(x, body, Param::Top, (fuel - 1) as nat)
            } else {
                q0.sub(body, x, Param::Top, (fuel - 1) as nat)
            };
            let (q2, ok2) = q.sub_unionall(x, u, r, Param::Top, fuel);
            once(q0, q1) ==> ok2 == ok && q2.e.l == q1.e.l && q2.e.r == q1.e.r
        }),
{
    reveal(Q::sub_unionall);
    reveal(Q::sub);
    reveal(State::widen);
}

/// The states that a query of a `where` type goes through agree on plain types.
proof fn lemma_states(s: State, x: u32, u: u32, lb: u32, ub: u32, a: u32)
    requires
        sound_types(s),
        s.plain(a),
        s.plain(ub),
    ensures
        ({
            let t = s.push_roots(seq![x, u]);
            let w = t.push_roots(seq![lb, ub]);
            &&& sound_types(w)
            &&& w.plain(a)
            &&& w.plain(ub)
            &&& is_below(w, a, ub) == is_below(s, a, ub)
            &&& is_below(w, ub, a) == is_below(s, ub, a)
            &&& w.objs == s.objs
        }),
{
    let t = s.push_roots(seq![x, u]);
    let w = t.push_roots(seq![lb, ub]);
    lemma_rooted_types(s, w, a, ub);
}

/// A variable in a tuple takes what is below its upper bound. The tuple of a plain type
/// `a` is below the `where` type of the tuple of a variable exactly if `a` is below the
/// variable's upper bound. Left out is an `a` that is the lower bound of a variable
/// whose bounds are not in order.
pub proof fn law_tuples_take_what_is_below_the_bound(
    s: State,
    c: u32,
    u: u32,
    v: u32,
    a: u32,
    lb: u32,
    ub: u32,
)
    requires
        sound_types(s),
        s.plain(a),
        s.plain(ub),
        holds_one(s, c, a),
        quantifies(s, u, v, lb, ub),
        holds_one(s, s.unionall_body(u), v),
        s.name_of(s.unionall_body(u)) == s.name_of(c),
        !s.is_vararg(v),
        a == lb ==> is_below(s, lb, ub),
    ensures
        is_below(s, c, u) <==> is_below(s, a, ub),
{
    let fuel = MAX_NESTING as nat;
    let body = s.unionall_body(u);
    let t = s.push_roots(seq![c, u]);
    let q = Q { s: t, e: EnvV::empty() };
    let w = t.push_roots(seq![lb, ub]);
    lemma_states(s, c, u, lb, ub, a);
    let f: nat = (fuel - 2) as nat;
    lemma_sub_is(q, c, u, Param::Top, f);
    assert(q.sub_ground(c, u, Param::Top, f) == q.sub_unionall(
        c,
        u,
        true,
        Param::Top,
        (f - 1) as nat,
    )) by {
        reveal(Q::sub_ground);
        reveal(Q::sub_unionall);
    }
    let b = VarBinding {
        var: v,
        lb,
        ub,
        existential: true,
        occurs_cov: 0i8,
        cov_diag: 0i8,
        occurs_inv: 0i8,
        body_occurs_inv: t.occurs_invariant(body, v, false, MAX_NESTING as nat),
        depth0: 0,
        intvalued: false,
        concrete: false,
        max_offset: 0i8,
        root_base: t.roots.len() as usize,
    };
    lemma_enter(q, c, u, v, lb, ub, true, b, (f - 1) as nat);
    let q0 = Q { s: w, e: EnvV { vars: q.e.vars.push(b), ..q.e } };
    lemma_one_member(q0, c, body, a, v, (f - 2) as nat);
    lemma_taken(q0, v, a, lb, ub, (f - 6) as nat);
    lemma_verdict(s, c, u, fuel);
}

/// A `where` type of the tuple of a variable is below the tuple of a plain type exactly
/// if the variable's upper bound is: each of its values is then, and the upper bound is
/// one of them.
pub proof fn law_tuples_over_a_variable_are_below(
    s: State,
    c: u32,
    u: u32,
    v: u32,
    a: u32,
    lb: u32,
    ub: u32,
)
    requires
        sound_types(s),
        s.plain(a),
        s.plain(ub),
        holds_one(s, c, a),
        quantifies(s, u, v, lb, ub),
        u != s.builtin(id::BOTTOM),
        holds_one(s, s.unionall_body(u), v),
        s.name_of(s.unionall_body(u)) == s.name_of(c),
        !s.is_vararg(v),
    ensures
        is_below(s, u, c) <==> is_below(s, ub, a),
{
    let fuel = MAX_NESTING as nat;
    let body = s.unionall_body(u);
    let t = s.push_roots(seq![u, c]);
    let q = Q { s: t, e: EnvV::empty() };
    let w = t.push_roots(seq![lb, ub]);
    lemma_states(s, u, c, lb, ub, a);
    let f: nat = (fuel - 2) as nat;
    lemma_sub_is(q, u, c, Param::Top, f);
    assert(q.sub_ground(u, c, Param::Top, f) == q.sub_unionall(
        c,
        u,
        false,
        Param::Top,
        (f - 1) as nat,
    )) by {
        reveal(Q::sub_ground);
        reveal(Q::sub_unionall);
    }
    let b = VarBinding {
        var: v,
        lb,
        ub,
        existential: false,
        occurs_cov: 0i8,
        cov_diag: 0i8,
        occurs_inv: 0i8,
        body_occurs_inv: t.occurs_invariant(body, v, false, MAX_NESTING as nat),
        depth0: 0,
        intvalued: false,
        concrete: false,
        max_offset: 0i8,
        root_base: t.roots.len() as usize,
    };
    lemma_enter(q, c, u, v, lb, ub, false, b, (f - 1) as nat);
    let q0 = Q { s: w, e: EnvV { vars: q.e.vars.push(b), ..q.e } };
    lemma_one_member(q0, body, c, v, a, (f - 2) as nat);
    lemma_given(q0, v, a, lb, ub, (f - 6) as nat);
    lemma_verdict(s, u, c, fuel);
}

/// Whether `t` is the tuple of twice the member `p`.
pub open spec fn holds_twice(s: State, t: u32, p: u32) -> bool {
    &&& s.is_datatype(t)
    &&& s.is_tuple(t)
    &&& !s.is_type_type(t)
    &&& t != s.builtin(id::ANY)
    &&& t != s.builtin(id::BOTTOM)
    &&& s.parameters(t) != NULL
    &&& s.svec_len(s.parameters(t)) == 2
    &&& s.svec_ref(s.parameters(t), 0) == p
    &&& s.svec_ref(s.parameters(t), 1) == p
}

/// Whether two walks differ in the heap at most by what its roots are.
pub open spec fn rooted(q: Q, q1: Q) -> bool {
    q1.s == (State { roots: q1.s.roots, ..q.s })
}

/// The members of tuples of two members, where the first comparison leaves the heap.
proof fn lemma_second_member(q: Q, px: u32, py: u32, a: u32, b: u32, fuel: nat)
    requires
        fuel > 2,
        q.s.svec_ref(px, 0) == a,
        q.s.svec_ref(px, 1) == a,
        q.s.svec_ref(py, 0) == b,
        q.s.svec_ref(py, 1) == b,
        !q.s.is_vararg(a) && !q.s.is_vararg(b),
        rooted(q, q.sub(a, b, Param::Covariant, (fuel - 1) as nat).0),
    ensures
        ({
            let (q1, ok) = q.sub(a, b, Param::Covariant, (fuel - 1) as nat);
            q.sub_tail_start(px, py, 2, 2, Param::Covariant, fuel) == if ok {
                q1.sub(a, b, Param::Covariant, (fuel - 1) as nat)
            } else {
                (q1, false)
            }
        }),
{
    reveal(Q::sub_tail_start);
    reveal(Q::sub_tail);
    reveal(Q::sub_tail_end);
    reveal(Q::sub);
    let (q1, ok) = q.sub(a, b, Param::Covariant, (fuel - 1) as nat);
    let (q2, ok2) = q1.sub(a, b, Param::Covariant, (fuel - 1) as nat);
    assert(q2.sub_tail_end(2, 2, 0, 0, b, (fuel - 1) as nat) == (q2, true));
    assert(q2.sub_tail(px, py, 2, 2, 2, 2, 0, 0, a, b, Param::Covariant, fuel) == (q2, true));
    assert(q1.sub_tail(px, py, 2, 2, 1, 1, 0, 0, a, b, Param::Covariant, fuel) == if ok2 {
        q2.sub_tail(px, py, 2, 2, 2, 2, 0, 0, a, b, Param::Covariant, fuel)
    } else {
        (q2, false)
    });
    assert(q.sub_tail(px, py, 2, 2, 0, 0, 0, 0, NULL, NULL, Param::Covariant, fuel) == if ok {
        q1.sub_tail(px, py, 2, 2, 1, 1, 0, 0, a, b, Param::Covariant, fuel)
    } else {
        (q1, false)
    });
}

/// Tuples of twice a member compare by the members.
#[verifier::rlimit(40)]
proof fn lemma_two_members(q: Q, x: u32, y: u32, a: u32, b: u32, fuel: nat)
    requires
        fuel > 8,
        sound_types(q.s),
        x != y,
        holds_twice(q.s, x, a),
        holds_twice(q.s, y, b),
        q.s.name_of(x) == q.s.name_of(y),
        !q.s.is_vararg(a) && !q.s.is_vararg(b),
        rooted(q, q.sub(a, b, Param::Covariant, (fuel - 4) as nat).0),
    ensures
        ({
            let (q1, ok) = q.sub(a, b, Param::Covariant, (fuel - 4) as nat);
            q.sub(x, y, Param::Top, fuel) == if ok {
                q1.sub(a, b, Param::Covariant, (fuel - 4) as nat)
            } else {
                (q1, false)
            }
        }),
{
    let s = q.s;
    let px = s.parameters(x);
    let py = s.parameters(y);
    lemma_sub_is(q, x, y, Param::Top, fuel);
    lemma_against_datatype(q, x, y, Param::Top, fuel);
    assert(s.svec_seq(px).len() == 2 && s.svec_seq(py).len() == 2);
    assert(q.sub_datatype(x, y, Param::Top, (fuel - 1) as nat) == q.sub_tuple(
        x,
        y,
        Param::Covariant,
        (fuel - 2) as nat,
    )) by {
        reveal(Q::sub_datatype);
        reveal(Q::sub_tuple);
        assert(s.super_named(x, s.name_of(y), MAX_NESTING as nat) == Some(x));
    }
    assert(q.sub_tuple(x, y, Param::Covariant, (fuel - 2) as nat) == q.sub_tail_start(
        px,
        py,
        2,
        2,
        Param::Covariant,
        (fuel - 3) as nat,
    )) by {
        reveal(Q::sub_tuple);
        reveal(Q::sub_tail_start);
    }
    lemma_second_member(q, px, py, a, b, (fuel - 3) as nat);
}

/// A plain type twice against a variable without a lower bound: the variable takes it,
/// and occurred twice.
#[verifier::rlimit(40)]
proof fn lemma_taken_twice(q: Q, v: u32, a: u32, ub: u32, fuel: nat)
    requires
        sound_types(q.s),
        q.s.plain(a),
        q.s.plain(ub),
        a != q.s.builtin(id::BOTTOM),
        q.s.is_typevar(v),
        over(q, v, q.s.builtin(id::BOTTOM), ub, true),
        8 * q.s.objs.len() + 15 <= fuel <= MAX_NESTING,
    ensures
        ({
            let (q1, ok) = q.sub(a, v, Param::Covariant, fuel);
            let (q2, ok2) = q1.sub(a, v, Param::Covariant, fuel);
            &&& rooted(q, q1)
            &&& ok == is_below(q.s, a, ub)
            &&& q1.e.l == q.e.l && q1.e.r == q.e.r
            &&& ok ==> {
                &&& ok2
                &&& rooted(q, q2)
                &&& q2.e.l == q.e.l && q2.e.r == q.e.r
                &&& q2.e.vars.len() == 1
                &&& q2.e.vars[0].lb == a
                &&& q2.e.vars[0].occurs_cov == 2
                &&& !q2.e.vars[0].concrete
                &&& q2.e.vars[0].body_occurs_inv == q.e.vars[0].body_occurs_inv
            }
        }),
{
    lemma_taken_is(q, v, a, fuel);
    let q0 = q.record(0, Param::Covariant);
    lemma_check(q0, a, ub, (fuel - 3) as nat);
    lemma_join_is(q.s, q.s.builtin(id::BOTTOM), a, (fuel - 3) as nat);
    if is_below(q.s, a, ub) {
        let q1 = q.sub(a, v, Param::Covariant, fuel).0;
        lemma_rooted_types(q.s, q1.s, a, ub);
        lemma_taken_is(q1, v, a, fuel);
    }
}

/// A variable that occurs more than once, and in tuples only, takes concrete types only.
/// The tuple of twice a plain type `a` without parameters is below the `where` type of the
/// tuple of twice a variable without a lower bound exactly if `a` is below the variable's
/// upper bound and is not abstract.
#[verifier::rlimit(40)]
pub proof fn law_repeated_variables_take_concrete_types(
    s: State,
    c: u32,
    u: u32,
    v: u32,
    a: u32,
    ub: u32,
)
    requires
        sound_types(s),
        s.plain(a),
        s.plain(ub),
        a != s.builtin(id::BOTTOM),
        s.parameters(a) == NULL || s.svec_len(s.parameters(a)) == 0,
        holds_twice(s, c, a),
        quantifies(s, u, v, s.builtin(id::BOTTOM), ub),
        holds_twice(s, s.unionall_body(u), v),
        s.name_of(s.unionall_body(u)) == s.name_of(c),
        !s.is_vararg(v),
    ensures
        is_below(s, c, u) <==> is_below(s, a, ub) && !s.is_abstract(a),
{
    let fuel = MAX_NESTING as nat;
    let body = s.unionall_body(u);
    let lb = s.builtin(id::BOTTOM);
    let t = s.push_roots(seq![c, u]);
    let q = Q { s: t, e: EnvV::empty() };
    let w = t.push_roots(seq![lb, ub]);
    lemma_states(s, c, u, lb, ub, a);
    let f: nat = (fuel - 2) as nat;
    lemma_sub_is(q, c, u, Param::Top, f);
    assert(q.sub_ground(c, u, Param::Top, f) == q.sub_unionall(
        c,
        u,
        true,
        Param::Top,
        (f - 1) as nat,
    )) by {
        reveal(Q::sub_ground);
        reveal(Q::sub_unionall);
    }
    let b = VarBinding {
        var: v,
        lb,
        ub,
        existential: true,
        occurs_cov: 0i8,
        cov_diag: 0i8,
        occurs_inv: 0i8,
        body_occurs_inv: t.occurs_invariant(body, v, false, MAX_NESTING as nat),
        depth0: 0,
        intvalued: false,
        concrete: false,
        max_offset: 0i8,
        root_base: t.roots.len() as usize,
    };
    assert(!b.body_occurs_inv) by {
        let n = (MAX_NESTING - 1) as nat;
        let p = t.parameters(body);
        assert(!t.occurs_invariant(v, v, false, n));
        assert forall|i: int| 0 <= i < t.svec_len(p) implies !t.occurs_invariant(
            #[trigger] t.svec_ref(p, i),
            v,
            false,
            n,
        ) by {
            assert(i == 0 || i == 1);
        }
    }
    let q0 = Q { s: w, e: EnvV { vars: q.e.vars.push(b), ..q.e } };
    lemma_taken_twice(q0, v, a, ub, (f - 6) as nat);
    lemma_two_members(q0, c, body, a, v, (f - 2) as nat);
    assert(w.is_leaf_typevar(v));
    assert(w.is_leaf_bound(a, MAX_NESTING as nat) == !s.is_abstract(a));
    lemma_leave(q, c, u, v, lb, ub, b, (f - 1) as nat);
    lemma_verdict(s, c, u, fuel);
}

/// Leaving a variable that occurred twice.
proof fn lemma_leave(q: Q, x: u32, u: u32, v: u32, lb: u32, ub: u32, b: VarBinding, fuel: nat)
    requires
        fuel > 0,
        quantifies(q.s, u, v, lb, ub),
        q.e.vars.len() == 0,
        b == (VarBinding {
            var: v,
            lb,
            ub,
            existential: true,
            occurs_cov: 0i8,
            cov_diag: 0i8,
            occurs_inv: 0i8,
            body_occurs_inv: q.s.occurs_invariant(
                q.s.unionall_body(u),
                v,
                false,
                MAX_NESTING as nat,
            ),
            depth0: q.e.invdepth,
            intvalued: false,
            concrete: false,
            max_offset: 0i8,
            root_base: q.s.roots.len() as usize,
        }),
    ensures
        ({
            let q0 = Q {
                s: q.s.push_roots(seq![lb, ub]),
                e: EnvV { vars: q.e.vars.push(b), ..q.e },
            };
            let (q1, ok) = q0.sub(x, q.s.unionall_body(u), Param::Top, (fuel - 1) as nat);
            let (q2, ok2) = q.sub_unionall(x, u, true, Param::Top, fuel);
            let k = q1.e.vars[0];
            &&& ok2 ==> ok
            &&& q2.e.l == q1.e.l && q2.e.r == q1.e.r
            &&& ok && q1.e.vars.len() == 1 && k.occurs_cov == 2 && !k.concrete && !k.body_occurs_inv
                && q1.s.is_leaf_typevar(v) && !q1.s.is_typevar(k.lb) ==> ok2
                == q1.s.is_leaf_bound(k.lb, MAX_NESTING as nat)
        }),
{
    reveal(Q::sub_unionall);
    reveal(Q::sub);
    reveal(State::widen);
}

} // verus!
