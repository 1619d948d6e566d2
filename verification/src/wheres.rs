//! Subtyping and `where` types.

use vstd::prelude::*;
use crate::access::MAX_NESTING;
use crate::bounds::{
    constructs, is_below, lemma_equal_var, lemma_rooted_types, lemma_verdict, quantifies, quiet,
    sound_types, unmoved, within,
};
use crate::env::{EnvV, Param, Q, VarBinding};
use crate::id;
use crate::region::NULL;
use crate::state::State;

verus! {

/// The walk of two types that are neither unions, meets nor variables.
pub proof fn lemma_sub_is(q: Q, x: u32, y: u32, param: Param, fuel: nat)
    requires
        fuel > 0,
        x != y,
        !q.s.is_union(x) && !q.s.is_union(y),
        !q.s.is_intersect(y),
        !q.s.is_typevar(x) && !q.s.is_typevar(y),
    ensures
        q.sub(x, y, param, fuel) == q.sub_ground(x, y, param, fuel),
{
    reveal(Q::sub);
    reveal(Q::sub_right);
    reveal(Q::sub_vars);
    reveal(Q::sub_ground);
    let end = q.sub_ground(x, y, param, fuel);
    assert(q.sub_vars(x, y, param, fuel) == end);
    assert(q.sub_right(x, y, param, fuel) == end);
}

/// A data type against a `where` type.
proof fn lemma_against_where(q: Q, x: u32, u: u32, param: Param, fuel: nat)
    requires
        fuel > 0,
        u != q.s.builtin(id::ANY),
        x != q.s.builtin(id::BOTTOM),
        !q.s.is_unionall(x),
        q.s.is_unionall(u),
    ensures
        q.sub_ground(x, u, param, fuel) == q.sub_unionall(x, u, true, param, (fuel - 1) as nat),
{
    reveal(Q::sub_ground);
    reveal(Q::sub_unionall);
}

/// A data type against another.
pub proof fn lemma_against_datatype(q: Q, x: u32, y: u32, param: Param, fuel: nat)
    requires
        fuel > 0,
        y != q.s.builtin(id::ANY),
        x != q.s.builtin(id::BOTTOM),
        !q.s.is_unionall(x) && !q.s.is_unionall(y),
        !q.s.is_type_type(x) && !q.s.is_type_type(y),
        !q.s.is_boxed_long(x) && !q.s.is_boxed_long(y),
    ensures
        q.sub_ground(x, y, param, fuel) == q.sub_datatype(x, y, param, (fuel - 1) as nat),
{
    reveal(Q::sub_ground);
    reveal(Q::sub_datatype);
}

/// Types of one name, other than tuples, compare by their parameters.
proof fn lemma_by_parameters(q: Q, x: u32, y: u32, param: Param, fuel: nat)
    requires
        fuel > 0,
        x != y,
        y != q.s.builtin(id::ANY),
        q.s.name_of(x) == q.s.name_of(y),
        !q.s.is_tuple(x),
        q.s.parameters(x) != NULL,
        q.s.parameters(y) != NULL,
    ensures
        ({
            let px = q.s.parameters(x);
            let py = q.s.parameters(y);
            let n = q.s.svec_len(px) as nat;
            let (q1, ok) = q.with_env(q.e.with_depth(1)).params_equal(
                px,
                py,
                n,
                n,
                (fuel - 1) as nat,
            );
            q.sub_datatype(x, y, param, fuel) == (q1.with_env(q1.e.with_depth(-1)), ok)
        }),
{
    reveal(Q::sub_datatype);
    reveal(Q::params_equal);
    assert(q.s.super_named(x, q.s.name_of(y), MAX_NESTING as nat) == Some(x));
}

/// A sole parameter.
proof fn lemma_sole_parameter(q: Q, px: u32, py: u32, fuel: nat)
    requires
        fuel > 0,
        q.s.svec_ref(px, 0) != q.s.svec_ref(py, 0),
    ensures
        q.params_equal(px, py, 1, 1, fuel) == q.equal(
            q.s.svec_ref(px, 0),
            q.s.svec_ref(py, 0),
            (fuel - 1) as nat,
        ),
{
    reveal(Q::params_equal);
    reveal(Q::equal);
    let (q1, ok) = q.equal(q.s.svec_ref(px, 0), q.s.svec_ref(py, 0), (fuel - 1) as nat);
    assert(q1.params_equal(px, py, 1, 0, fuel) == (q1, true));
}

/// A plain type against a variable.
proof fn lemma_against_var(q: Q, a: u32, v: u32, fuel: nat)
    requires
        fuel > 0,
        sound_types(q.s),
        q.s.plain(a),
        q.s.is_typevar(v),
        q.e.loffset == 0,
    ensures
        q.equal(a, v, fuel) == q.equal_var(v, a, (fuel - 1) as nat),
{
    reveal(Q::equal);
    reveal(Q::equal_var);
    let s = q.s;
    assert(!s.is_indefinite_tuple(a)) by {
        let p = s.parameters(a);
        assert(s.unwrap_unionall(a, MAX_NESTING as nat) == a);
        if p != NULL && s.svec_len(p) > 0 {
            let last = s.svec_ref(p, s.svec_len(p) - 1);
            assert(s.plain_to(last, (s.objs.len() - 1) as nat));
        }
    }
    assert(!s.is_indefinite_tuple(v)) by {
        assert(s.unwrap_unionall(v, MAX_NESTING as nat) == v);
    }
}

/// Entering a variable on the right, where nothing makes it concrete.
proof fn lemma_enter(q: Q, x: u32, u: u32, v: u32, lb: u32, ub: u32, fuel: nat)
    requires
        fuel > 0,
        quantifies(q.s, u, v, lb, ub),
        q.e.vars.len() == 0,
    ensures
        ({
            let b = VarBinding {
                var: v,
                lb,
                ub,
                existential: true,
                occurs_cov: 0i8,
                cov_diag: 0i8,
                occurs_inv: 0i8,
                body_occurs_inv: q.s.occurs_invariant(
                    q.s.unionall_body(u),
                    v,
                    false,
                    MAX_NESTING as nat,
                ),
                depth0: q.e.invdepth,
                intvalued: false,
                concrete: false,
                max_offset: 0i8,
                root_base: q.s.roots.len() as usize,
            };
            let q0 = Q {
                s: q.s.push_roots(seq![lb, ub]),
                e: EnvV { vars: q.e.vars.push(b), ..q.e },
            };
            let (q1, ok) = q0.sub(x, q.s.unionall_body(u), Param::Top, (fuel - 1) as nat);
            let (q2, ok2) = q.sub_unionall(x, u, true, Param::Top, fuel);
            unmoved(q1.e.vars) ==> ok2 == ok && q2.e.l == q1.e.l && q2.e.r == q1.e.r
        }),
{
    reveal(Q::sub_unionall);
    reveal(Q::sub);
    reveal(State::widen);
}

/// A type constructor over a plain type, against the same over a variable.
#[verifier::rlimit(40)]
proof fn lemma_body(q: Q, c: u32, body: u32, v: u32, a: u32, lb: u32, ub: u32, fuel: nat)
    requires
        sound_types(q.s),
        q.s.plain(c),
        constructs(q.s, c, a),
        constructs(q.s, body, v),
        q.s.name_of(body) == q.s.name_of(c),
        q.s.is_typevar(v),
        q.s.plain(a),
        q.s.plain(lb),
        q.s.plain(ub),
        within(q, v, lb, ub),
        q.e.invdepth == 0,
        a == lb || a == ub ==> is_below(q.s, lb, ub),
        is_below(q.s, lb, a) || is_below(q.s, a, lb) || !is_below(q.s, a, ub),
        8 * q.s.objs.len() + 20 <= fuel <= MAX_NESTING,
    ensures
        ({
            let (q1, ok) = q.sub(c, body, Param::Top, fuel);
            &&& ok == (is_below(q.s, lb, a) && is_below(q.s, a, ub))
            &&& quiet(q, q1)
        }),
{
    let s = q.s;
    assert(a != v);
    lemma_sub_is(q, c, body, Param::Top, fuel);
    lemma_against_datatype(q, c, body, Param::Top, fuel);
    lemma_by_parameters(q, c, body, Param::Top, (fuel - 1) as nat);
    let q0 = q.with_env(q.e.with_depth(1));
    lemma_sole_parameter(q0, s.parameters(c), s.parameters(body), (fuel - 2) as nat);
    lemma_against_var(q0, a, v, (fuel - 3) as nat);
    assert(within(q0, v, lb, ub));
    lemma_equal_var(q0, v, a, lb, ub, (fuel - 4) as nat);
}

/// A variable takes the types between its bounds. A constructor other than a tuple over
/// a plain type `a` is below the `where` type of the same constructor over a variable
/// exactly if `a` is above the variable's lower bound and below its upper bound.
/// Left out are bounds of which the lower one is not below the upper one, where `a` is
/// one of them, and types between which and the lower bound there is no order.
pub proof fn law_bounds_hold(
    s: State,
    c: u32,
    u: u32,
    v: u32,
    a: u32,
    lb: u32,
    ub: u32,
)
    requires
        sound_types(s),
        s.plain(c),
        s.plain(a),
        s.plain(lb),
        s.plain(ub),
        constructs(s, c, a),
        quantifies(s, u, v, lb, ub),
        constructs(s, s.unionall_body(u), v),
        s.name_of(s.unionall_body(u)) == s.name_of(c),
        a == lb || a == ub ==> is_below(s, lb, ub),
        is_below(s, lb, a) || is_below(s, a, lb) || !is_below(s, a, ub),
    ensures
        is_below(s, c, u) <==> is_below(s, lb, a) && is_below(s, a, ub),
        !is_below(s, a, ub) ==> !is_below(s, c, u),
{
    let fuel = MAX_NESTING as nat;
    let body = s.unionall_body(u);
    let t = s.push_roots(seq![c, u]);
    let q = Q { s: t, e: EnvV::empty() };
    lemma_rooted_types(s, t, lb, a);
    lemma_rooted_types(s, t, a, ub);
    lemma_rooted_types(s, t, lb, ub);
    lemma_rooted_types(s, t, c, c);
    let f: nat = (fuel - 2) as nat;
    lemma_sub_is(q, c, u, Param::Top, f);
    lemma_against_where(q, c, u, Param::Top, f);
    lemma_enter(q, c, u, v, lb, ub, (f - 1) as nat);
    let b = VarBinding {
        var: v,
        lb,
        ub,
        existential: true,
        occurs_cov: 0i8,
        cov_diag: 0i8,
        occurs_inv: 0i8,
        body_occurs_inv: t.occurs_invariant(body, v, false, MAX_NESTING as nat),
        depth0: 0,
        intvalued: false,
        concrete: false,
        max_offset: 0i8,
        root_base: t.roots.len() as usize,
    };
    let w = t.push_roots(seq![lb, ub]);
    let q0 = Q { s: w, e: EnvV { vars: q.e.vars.push(b), ..q.e } };
    lemma_rooted_types(s, w, lb, a);
    lemma_rooted_types(s, w, a, ub);
    lemma_rooted_types(s, w, lb, ub);
    lemma_rooted_types(s, w, c, c);
    assert(within(q0, v, lb, ub));
    lemma_body(q0, c, body, v, a, lb, ub, (f - 2) as nat);
    lemma_verdict(s, c, u, fuel);
}

} // verus!
