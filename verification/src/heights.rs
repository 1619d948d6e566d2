//! The height of the shadow stack: a query pushes the bounds of the variables that it
//! enters and the snapshots of its enumerations, and releases them all.

use vstd::prelude::*;
use crate::access::MAX_NESTING;
use crate::balance;
use crate::bytes::utf8;
use crate::env::{existential, negate, EnvV, Param, Q, SavedV, UnionV, VarBinding};
use crate::id;
use crate::intrinsics::wrap;
use crate::region::NULL;
use crate::state::{State, Value};
use crate::subtype_spec::{
    all_below, any_alive, clear_cov, cov_counts, filter_kept, fold_cov, kept, stand, SlowV,
    MAX_PASSES,
};
use crate::typewalk::{dedup, VarargKind};

verus! {

/// Whether the shadow stack of `e` is as high as that of `s`.
pub open spec fn level(s: State, e: State) -> bool {
    e.roots.len() == s.roots.len()
}

/// Whether the shadow stack is as high as before, and as many variables are bound.
pub open spec fn steady(q: Q, p: Q) -> bool {
    level(q.s, p.s) && p.e.vars.len() == q.e.vars.len()
}

/// The elements left of a tuple side.
spec fn gap(i: int, n: int) -> int {
    if i < n {
        n - i
    } else {
        0
    }
}

proof fn lemma_picked(q: Q, u: u32, r: bool, fuel: nat)
    ensures
        steady(q, q.pick_element(u, r, fuel).0),
    decreases fuel,
{
    if fuel > 0 {
        let (p, second) = q.pick(r);
        let v = if second {
            p.s.union_b(u)
        } else {
            p.s.union_a(u)
        };
        lemma_picked(p, v, r, (fuel - 1) as nat);
    }
}

proof fn lemma_restored(q: Q, old: SavedV, i: int)
    ensures
        steady(q, q.restore_from(old, i)),
    decreases old.vars.len() - i,
{
    if !(i < 0 || i >= old.vars.len() || i >= q.e.vars.len()) {
        let b = VarBinding {
            concrete: q.e.vars[i].concrete,
            intvalued: q.e.vars[i].intvalued,
            ..old.vars[i]
        };
        let p = Q {
            s: q.s.with_root(b.root_base as int, b.lb).with_root(b.root_base + 1, b.ub),
            e: q.e.with_var(i, b),
        };
        lemma_restored(p, old, i + 1);
    }
}

proof fn lemma_nested(s: State, parts: Seq<u32>, n: int, acc: u32)
    ensures
        level(s, s.nest_unions(parts, n, acc).0),
    decreases n,
{
    if !(n <= 0 || n > parts.len()) {
        balance::law_values_balance(
            s,
            0,
            0,
            s.builtin(id::UNION),
            Seq::empty(),
            seq![parts[n - 1], acc],
        );
        let (e, v) = s.union_node(parts[n - 1], acc);
        lemma_nested(e, parts, n - 1, v);
    }
}

/// The steps of a query that push and release roots of their own, or none.
proof fn lemma_parts()
    ensures
        forall|q: Q, u: u32, r: bool, fuel: nat|
            steady(q, (#[trigger] q.pick_element(u, r, fuel)).0),
        forall|q: Q, old: SavedV| steady(q, #[trigger] q.restore(old)),
        forall|s: State, i: i64| level(s, (#[trigger] s.box_int(i)).0),
        forall|s: State, name: Seq<u8>, lb: u32, ub: u32|
            level(s, (#[trigger] s.make_typevar(name, lb, ub)).0),
        forall|s: State, t: u32| level(s, (#[trigger] s.type_type(t)).0),
        forall|s: State, var: u32, body: u32| level(s, (#[trigger] s.unionall_type(var, body)).0),
        forall|s: State, a: u32, b: u32| level(s, (#[trigger] s.intersect_type(a, b)).0),
        forall|s: State, parts: Seq<u32>, n: int, acc: u32|
            level(s, (#[trigger] s.nest_unions(parts, n, acc)).0),
{
    reveal(Q::restore);
    assert forall|q: Q, u: u32, r: bool, fuel: nat|
        steady(q, (#[trigger] q.pick_element(u, r, fuel)).0) by {
        lemma_picked(q, u, r, fuel);
    }
    assert forall|q: Q, old: SavedV| steady(q, #[trigger] q.restore(old)) by {
        lemma_restored(q, old, 0);
    }
    assert forall|s: State, i: i64| level(s, (#[trigger] s.box_int(i)).0) by {
        balance::law_values_balance(
            s,
            id::INT64,
            crate::value::bits_of(i),
            0,
            Seq::empty(),
            Seq::empty(),
        );
    }
    assert forall|s: State, name: Seq<u8>, lb: u32, ub: u32|
        level(s, (#[trigger] s.make_typevar(name, lb, ub)).0) by {
        let p = s.push_roots(seq![lb, ub]);
        balance::law_values_balance(p, 0, 0, s.builtin(id::SYMBOL), name, Seq::empty());
        let (e, sym) = p.intern(s.builtin(id::SYMBOL), name);
        lemma_refs(e.pop_roots(2), e.builtin(id::TVAR), seq![sym, lb, ub]);
    }
    assert forall|s: State, t: u32| level(s, (#[trigger] s.type_type(t)).0) by {
        balance::law_instantiation_balances(
            s,
            s.shared_name(2),
            s.builtin(id::TYPE),
            seq![t],
            NULL,
            0,
        );
    }
    assert forall|s: State, var: u32, body: u32|
        level(s, (#[trigger] s.unionall_type(var, body)).0) by {
        lemma_refs(s, s.builtin(id::UNIONALL), seq![var, body]);
    }
    assert forall|s: State, a: u32, b: u32| level(s, (#[trigger] s.intersect_type(a, b)).0) by {
        lemma_refs(s, s.builtin(id::INTERSECT), seq![a, b]);
    }
    assert forall|s: State, parts: Seq<u32>, n: int, acc: u32|
        level(s, (#[trigger] s.nest_unions(parts, n, acc)).0) by {
        lemma_nested(s, parts, n, acc);
    }
}

proof fn lemma_refs(s: State, t: u32, refs: Seq<u32>)
    ensures
        level(s, s.make_refs(t, refs).0),
{
    balance::law_values_balance(s, 0, 0, t, Seq::empty(), refs);
}

/// Whether every query of the given fuel leaves the shadow stack as high as it was.
spec fn settled(fuel: nat) -> bool {
    &&& forall|q: Q, x: u32, y: u32, param: Param|
        steady(q, (#[trigger] q.sub(x, y, param, fuel)).0)
    &&& forall|q: Q, x: u32, y: u32, param: Param|
        steady(q, (#[trigger] q.sub_right(x, y, param, fuel)).0)
    &&& forall|q: Q, x: u32, y: u32, param: Param|
        steady(q, (#[trigger] q.sub_vars(x, y, param, fuel)).0)
    &&& forall|q: Q, x: u32, y: u32, param: Param|
        steady(q, (#[trigger] q.sub_ground(x, y, param, fuel)).0)
    &&& forall|q: Q, y: u32, param: Param| steady(q, (#[trigger] q.sub_kind(y, param, fuel)).0)
    &&& forall|q: Q, t: u32, u: u32, r: bool, param: Param|
        steady(q, (#[trigger] q.sub_unionall(t, u, r, param, fuel)).0)
    &&& forall|q: Q, b: u32, a: u32, r: bool, param: Param|
        steady(q, (#[trigger] q.sub_var(b, a, r, param, fuel)).0)
    &&& forall|q: Q, x: u32, y: u32, param: Param|
        steady(q, (#[trigger] q.sub_left_var(x, y, param, fuel)).0)
    &&& forall|q: Q, x: u32, y: u32, param: Param|
        steady(q, (#[trigger] q.in_forall_scope(x, y, param, fuel)).0)
    &&& forall|q: Q, a: u32, idx: int, param: Param|
        steady(q, (#[trigger] q.var_lt(a, idx, param, fuel)).0)
    &&& forall|q: Q, a: u32, idx: int, param: Param|
        steady(q, (#[trigger] q.var_gt(a, idx, param, fuel)).0)
    &&& forall|q: Q, a: u32, b: u32| steady(q, (#[trigger] q.ccheck(a, b, fuel)).0)
    &&& forall|q: Q, x: u32, y: u32, param: Param|
        steady(q, (#[trigger] q.two_vars(x, y, param, fuel)).0)
    &&& forall|q: Q, v: u32, n: i64| steady(q, (#[trigger] q.check_length(v, n, fuel)).0)
    &&& forall|q: Q, x: u32, y: u32, param: Param|
        steady(q, (#[trigger] q.sub_datatype(x, y, param, fuel)).0)
    &&& forall|q: Q, px: u32, py: u32, n: nat, k: nat|
        steady(q, (#[trigger] q.params_equal(px, py, n, k, fuel)).0)
    &&& forall|q: Q, x: u32, y: u32, param: Param|
        steady(q, (#[trigger] q.sub_tuple(x, y, param, fuel)).0)
    &&& forall|q: Q, px: u32, py: u32, lx: int, ly: int, param: Param|
        steady(q, (#[trigger] q.sub_tail_start(px, py, lx, ly, param, fuel)).0)
    &&& forall|q: Q, lx: int, ly: int, vx: int, vy: int, yi: u32|
        steady(q, (#[trigger] q.sub_tail_end(lx, ly, vx, vy, yi, fuel)).0)
    &&& forall|q: Q, vtx: u32, vty: u32, vx: int, vy: int, param: Param|
        steady(q, (#[trigger] q.sub_varargs(vtx, vty, vx, vy, param, fuel)).0)
    &&& forall|
        q: Q, xp1: u32, yp1: u32, vx: int, vy: int, xlv: Option<int>, ylv: Option<int>,
        mx: i8, my: i8,
    |
        steady(q, (#[trigger] q.equate_lengths(xp1, yp1, vx, vy, xlv, ylv, mx, my,
            fuel)).0)
    &&& forall|q: Q, yp1: u32, my: i8| steady(q, (#[trigger] q.free_length(yp1, my, fuel)).0)
    &&& forall|q: Q, xn: u32, yn: u32, vx: int, vy: int|
        steady(q, (#[trigger] q.equate_offsets(xn, yn, vx, vy, fuel)).0)
    &&& forall|q: Q, x: u32, y: u32| steady(q, (#[trigger] q.equal(x, y, fuel)).0)
    &&& forall|q: Q, x: u32, y: u32| steady(q, (#[trigger] q.equal_slow(x, y, fuel)).0)
    &&& forall|q: Q, v: u32, x: u32| steady(q, (#[trigger] q.equal_var(v, x, fuel)).0)
    &&& forall|q: Q, x: u32, y: u32, param: Param, limit: int|
        steady(q, (#[trigger] q.local(x, y, param, limit, fuel)).0)
    &&& forall|q: Q, x: u32, y: u32, param: Param, n: nat|
        steady(q, (#[trigger] q.left_loop(x, y, param, fuel, n)).0)
    &&& forall|
        q: Q, x: u32, y: u32, param: Param, limited_by: bool, rmore: usize, st: SlowV,
        n: nat,
    |
        steady(q, (#[trigger] q.slow_outer(x, y, param, limited_by, rmore, st, fuel,
            n)).0)
    &&& forall|q: Q, x: u32, y: u32, param: Param|
        steady(q, (#[trigger] q.forall_exists(x, y, param, fuel)).0)
    &&& forall|q: Q, x: u32, y: u32, param: Param, se: SavedV, n: nat|
        steady(q, (#[trigger] q.forall_loop(x, y, param, se, fuel, n)).0)
    &&& forall|s: State, a: u32, b: u32| level(s, (#[trigger] s.subtype(a, b, fuel)).0)
    &&& forall|s: State, a: u32, b: u32, mode: int|
        level(s, (#[trigger] s.meet(a, b, mode, fuel)).0)
    &&& forall|s: State, x: u32, y: u32| level(s, (#[trigger] s.disjoint(x, y, fuel)).0)
    &&& forall|s: State, comps: Seq<u32>, alive: Seq<bool>, na: int, i: int|
        level(s, (#[trigger] s.alive_rows(comps, alive, na, i, fuel)).0)
    &&& forall|s: State, comps: Seq<u32>, alive: Seq<bool>, st: Seq<i8>, na: int, i: int|
        level(s, (#[trigger] s.standing_rows(comps, alive, st, na, i, fuel)).0)
    &&& forall|s: State, a: u32, b: u32, mode: int|
        level(s, (#[trigger] s.meet_unions(a, b, mode, fuel)).0)
    &&& forall|s: State, t: u32| level(s, (#[trigger] s.widen(t, fuel)).0)
    &&& forall|s: State, a: u32, b: u32| level(s, (#[trigger] s.join(a, b, fuel)).0)
    &&& forall|s: State, comps: Seq<u32>, keep: Seq<bool>, i: int|
        level(s, (#[trigger] s.survivors(comps, keep, i, fuel)).0)
    &&& forall|s: State, parts: Seq<u32>| level(s, (#[trigger] s.union_all(parts, fuel)).0)
}

// --- the queries, one by one, each after its definition ---------------------

proof fn lemma_sub_kind(q: Q, y: u32, param: Param, fuel: nat)
    requires
        fuel > 0 ==> settled((fuel - 1) as nat),
    ensures
        steady(q, q.sub_kind(y, param, fuel).0),
{
    reveal(Q::sub_kind);
    lemma_parts();
    reveal(Q::sub);
    let done = {
        if fuel == 0 {
            (q, false)
        } else {
            let (s1, v) = q.s.make_typevar(
                utf8("T"),
                q.s.builtin(id::BOTTOM),
                q.s.builtin(id::ANY),
            );
            let (s2, tt) = s1.push_root(v).type_type(v);
            let (s3, ua) = s2.push_root(tt).unionall_type(v, tt);
            let (q, ok) = q.with_state(s3.push_root(ua)).sub(ua, y, param, (fuel - 1) as nat);
            (q.with_state(q.s.pop_roots(3)), ok)
        }
    };
    assert(done == q.sub_kind(y, param, fuel));
}

proof fn lemma_sub_unionall(q: Q, t: u32, u: u32, r: bool, param: Param, fuel: nat)
    requires
        fuel > 0 ==> settled((fuel - 1) as nat),
    ensures
        steady(q, q.sub_unionall(t, u, r, param, fuel).0),
{
    reveal(Q::sub_unionall);
    lemma_parts();
    reveal(Q::sub);
    reveal(State::widen);
    let done = {
        if fuel == 0 {
            (q, false)
        } else {
            let var = q.s.unionall_var(u);
            let body = q.s.unionall_body(u);
            let lb = q.s.tvar_lb(var);
            let ub = q.s.tvar_ub(var);
            let idx = q.e.vars.len() as int;
            let b = VarBinding {
                var,
                lb,
                ub,
                existential: r,
                occurs_cov: 0i8,
                cov_diag: 0i8,
                occurs_inv: 0i8,
                body_occurs_inv: q.s.occurs_invariant(body, var, false, MAX_NESTING as nat),
                depth0: q.e.invdepth,
                intvalued: false,
                concrete: false,
                max_offset: 0i8,
                root_base: q.s.roots.len() as usize,
            };
            let q = Q {
                s: q.s.push_roots(seq![lb, ub]),
                e: EnvV { vars: q.e.vars.push(b), ..q.e },
            };
            let (q1, ok) = if r {
                q.sub(t, body, param, (fuel - 1) as nat)
            } else {
                q.sub(body, t, param, (fuel - 1) as nat)
            };
            let (q2, ok2) = q1.diagonal(idx, var, ok);
            let q3 = if ok2 && q2.s.is_intersect(q2.e.ub_at(idx)) {
                let (s, w) = q2.s.widen(q2.e.ub_at(idx), (fuel - 1) as nat);
                q2.with_state(s).set_ub(idx, w)
            } else {
                q2
            };
            (Q { s: q3.s.pop_roots(2), e: q3.e.pop_var() }, ok2)
        }
    };
    assert(done == q.sub_unionall(t, u, r, param, fuel));
}

proof fn lemma_sub_var(q: Q, b: u32, a: u32, r: bool, param: Param, fuel: nat)
    requires
        fuel > 0 ==> settled((fuel - 1) as nat),
    ensures
        steady(q, q.sub_var(b, a, r, param, fuel).0),
{
    reveal(Q::sub_var);
    lemma_parts();
    reveal(Q::var_gt);
    reveal(Q::var_lt);
    reveal(Q::sub);
    let done = {
        if fuel == 0 {
            (q, false)
        } else if q.e.loffset != 0 && q.s.is_boxed_long(a) {
            let k = if r {
                negate(q.e.loffset)
            } else {
                q.e.loffset
            };
            let (s1, na) = q.s.box_int(wrap(q.s.unbox_int(a) + k));
            let q = Q { s: s1.push_root(na), e: q.e.with_loffset(0) };
            let (q1, ok) = q.sub_var(b, na, r, param, (fuel - 1) as nat);
            (
                Q {
                    s: q1.s.pop_roots(1),
                    e: q1.e.with_loffset(
                        if r {
                            negate(k)
                        } else {
                            k
                        },
                    ),
                },
                ok,
            )
        } else {
            match q.e.find(b) {
                Some(i) => if r {
                    q.var_gt(a, i, param, (fuel - 1) as nat)
                } else {
                    q.var_lt(a, i, param, (fuel - 1) as nat)
                },
                None => if r {
                    q.sub(a, q.s.tvar_lb(b), param, (fuel - 1) as nat)
                } else {
                    q.sub(q.s.tvar_ub(b), a, param, (fuel - 1) as nat)
                },
            }
        }
    };
    assert(done == q.sub_var(b, a, r, param, fuel));
}

proof fn lemma_sub_left_var(q: Q, x: u32, y: u32, param: Param, fuel: nat)
    requires
        fuel > 0 ==> settled((fuel - 1) as nat),
    ensures
        steady(q, q.sub_left_var(x, y, param, fuel).0),
{
    reveal(Q::sub_left_var);
    lemma_parts();
    reveal(Q::sub);
    let done = {
        if fuel == 0 {
            (q, false)
        } else if q.s.is_boxed_long(x) && q.s.is_boxed_long(y) {
            (q, q.longs_equal(x, y))
        } else if x == y && !q.s.is_unionall(y) {
            (q, true)
        } else if x == q.s.builtin(id::BOTTOM) || y == q.s.builtin(id::ANY) {
            (q, true)
        } else if q.s.is_union(x) && q.s.obviously_egal(x, y, MAX_NESTING as nat) {
            (q, true)
        } else if x == q.s.builtin(id::ANY) && q.s.is_datatype(y) {
            (q, false)
        } else {
            q.sub(x, y, param, (fuel - 1) as nat)
        }
    };
    assert(done == q.sub_left_var(x, y, param, fuel));
}

proof fn lemma_in_forall_scope(q: Q, x: u32, y: u32, param: Param, fuel: nat)
    requires
        fuel > 0 ==> settled((fuel - 1) as nat),
    ensures
        steady(q, q.in_forall_scope(x, y, param, fuel).0),
{
    reveal(Q::in_forall_scope);
    lemma_parts();
    reveal(Q::sub_left_var);
    let done = {
        if fuel == 0 {
            (q, false)
        } else {
            let saved = cov_counts(q.e.vars);
            let q = q.with_env(EnvV { vars: clear_cov(q.e.vars, true), ..q.e });
            let (q1, ok) = q.sub_left_var(x, y, param, (fuel - 1) as nat);
            (q1.with_env(EnvV { vars: fold_cov(q1.e.vars, saved, true), ..q1.e }), ok)
        }
    };
    assert(done == q.in_forall_scope(x, y, param, fuel));
}

proof fn lemma_var_lt(q: Q, a: u32, idx: int, param: Param, fuel: nat)
    requires
        fuel > 0 ==> settled((fuel - 1) as nat),
    ensures
        steady(q, q.var_lt(a, idx, param, fuel).0),
{
    reveal(Q::var_lt);
    lemma_parts();
    reveal(Q::in_forall_scope);
    reveal(Q::ccheck);
    reveal(State::meet);
    let done = {
        if fuel == 0 || !(0 <= idx < q.e.vars.len()) {
            (q, false)
        } else {
            let q = q.record(idx, param);
            let b = q.e.vars[idx];
            if q.offset_blocks(a) {
                (q, false)
            } else if !b.existential {
                q.in_forall_scope(b.ub, a, param, (fuel - 1) as nat)
            } else if b.ub == a {
                (q, true)
            } else {
                let (q1, ok) = q.ccheck(b.lb, a, (fuel - 1) as nat);
                if ok {
                    let (s, m) = q1.s.meet(q1.e.ub_at(idx), a, 1, (fuel - 1) as nat);
                    (q1.with_state(s).set_ub(idx, m), true)
                } else {
                    (q1, false)
                }
            }
        }
    };
    assert(done == q.var_lt(a, idx, param, fuel));
}

proof fn lemma_var_gt(q: Q, a: u32, idx: int, param: Param, fuel: nat)
    requires
        fuel > 0 ==> settled((fuel - 1) as nat),
    ensures
        steady(q, q.var_gt(a, idx, param, fuel).0),
{
    reveal(Q::var_gt);
    lemma_parts();
    reveal(Q::in_forall_scope);
    reveal(Q::ccheck);
    reveal(State::join);
    let done = {
        if fuel == 0 || !(0 <= idx < q.e.vars.len()) {
            (q, false)
        } else {
            let q = q.record(idx, param);
            let b = q.e.vars[idx];
            if q.offset_blocks(a) {
                (q, false)
            } else if !b.existential {
                q.in_forall_scope(a, b.lb, param, (fuel - 1) as nat)
            } else if b.lb == a {
                (q, true)
            } else {
                let (q1, ok) = q.ccheck(a, b.ub, (fuel - 1) as nat);
                if ok {
                    let (s, j) = q1.s.join(q1.e.lb_at(idx), a, (fuel - 1) as nat);
                    (q1.with_state(s).set_lb(idx, j), true)
                } else {
                    (q1, false)
                }
            }
        }
    };
    assert(done == q.var_gt(a, idx, param, fuel));
}

proof fn lemma_ccheck(q: Q, a: u32, b: u32, fuel: nat)
    requires
        fuel > 0 ==> settled((fuel - 1) as nat),
    ensures
        steady(q, q.ccheck(a, b, fuel).0),
{
    reveal(Q::ccheck);
    lemma_parts();
    reveal(Q::local);
    let done = {
        if fuel == 0 {
            (q, false)
        } else if q.s.is_boxed_long(a) && q.s.is_boxed_long(b) {
            (q, q.longs_equal(a, b))
        } else if a == b || a == q.s.builtin(id::BOTTOM) || b == q.s.builtin(id::ANY) {
            (q, true)
        } else if a == q.s.builtin(id::ANY) && q.s.is_datatype(b) {
            (q, false)
        } else if q.s.obviously_in_union(b, a, MAX_NESTING as nat) {
            (q, true)
        } else {
            let old_l = q.e.l.saved();
            let saved = cov_counts(q.e.vars);
            let q = q.with_env(EnvV { vars: clear_cov(q.e.vars, false), ..q.e });
            let (q1, ok) = q.local(a, b, Param::Top, 1, (fuel - 1) as nat);
            (
                q1.with_env(
                    EnvV {
                        vars: fold_cov(q1.e.vars, saved, false),
                        l: q1.e.l.restored(old_l),
                        ..q1.e
                    },
                ),
                ok,
            )
        }
    };
    assert(done == q.ccheck(a, b, fuel));
}

proof fn lemma_two_vars(q: Q, x: u32, y: u32, param: Param, fuel: nat)
    requires
        fuel > 0 ==> settled((fuel - 1) as nat),
    ensures
        steady(q, q.two_vars(x, y, param, fuel).0),
{
    reveal(Q::two_vars);
    lemma_parts();
    reveal(Q::var_gt);
    reveal(Q::var_lt);
    reveal(Q::sub);
    let done = {
        if fuel == 0 {
            (q, false)
        } else if x == y {
            (q, true)
        } else {
            let xi = q.e.find(x);
            let yi = q.e.find(y);
            let xr = existential(q.e, x);
            let yr = existential(q.e, y);
            if xi is None && yi is None {
                (q, false)
            } else if xr {
                let i = xi->Some_0;
                if yr && i < yi->Some_0 {
                    q.record(i, param).var_gt(x, yi->Some_0, param, (fuel - 1) as nat)
                } else {
                    match yi {
                        Some(j) => q.record(j, param).var_lt(y, i, param, (fuel - 1) as nat),
                        None => q.var_lt(y, i, param, (fuel - 1) as nat),
                    }
                }
            } else if yr {
                let j = yi->Some_0;
                match xi {
                    Some(i) => {
                        let q = q.record(i, param);
                        if q.e.vars[j].depth0 < q.e.vars[i].depth0 {
                            q.var_gt(q.e.vars[i].ub, j, param, (fuel - 1) as nat)
                        } else {
                            q.var_gt(x, j, param, (fuel - 1) as nat)
                        }
                    },
                    None => q.var_gt(x, j, param, (fuel - 1) as nat),
                }
            } else {
                let xub = match xi {
                    Some(i) => q.e.vars[i].ub,
                    None => q.s.tvar_ub(x),
                };
                let ylb = match yi {
                    Some(j) => q.e.vars[j].lb,
                    None => q.s.tvar_lb(y),
                };
                let (q, ok) = q.sub(xub, y, param, (fuel - 1) as nat);
                if ok {
                    (q, true)
                } else {
                    q.sub(x, ylb, param, (fuel - 1) as nat)
                }
            }
        }
    };
    assert(done == q.two_vars(x, y, param, fuel));
}

proof fn lemma_check_length(q: Q, v: u32, n: i64, fuel: nat)
    requires
        fuel > 0 ==> settled((fuel - 1) as nat),
    ensures
        steady(q, q.check_length(v, n, fuel).0),
{
    reveal(Q::check_length);
    lemma_parts();
    reveal(Q::sub);
    let done = {
        let num = q.s.vararg_num(v);
        if fuel == 0 {
            (q, false)
        } else if num == NULL {
            (q, true)
        } else {
            let (s1, boxed) = q.s.box_int(n);
            let q = Q { s: s1.push_root(boxed), e: q.e.with_depth(1) };
            let (q1, ok) = q.sub(boxed, num, Param::Invariant, (fuel - 1) as nat);
            let (q2, ok2) = if ok {
                q1.sub(num, boxed, Param::Top, (fuel - 1) as nat)
            } else {
                (q1, false)
            };
            (Q { s: q2.s.pop_roots(1), e: q2.e.with_depth(-1) }, ok2)
        }
    };
    assert(done == q.check_length(v, n, fuel));
}

proof fn lemma_sub_datatype(q: Q, x: u32, y: u32, param: Param, fuel: nat)
    requires
        fuel > 0 ==> settled((fuel - 1) as nat),
    ensures
        steady(q, q.sub_datatype(x, y, param, fuel).0),
{
    reveal(Q::sub_datatype);
    lemma_parts();
    reveal(Q::sub_tuple);
    reveal(Q::params_equal);
    let done = {
        if fuel == 0 {
            (q, false)
        } else if x == y || y == q.s.builtin(id::ANY) {
            (q, true)
        } else {
            match q.s.super_named(x, q.s.name_of(y), MAX_NESTING as nat) {
                None => (q, false),
                Some(xd) => if q.s.is_tuple(xd) {
                    q.sub_tuple(
                        xd,
                        y,
                        if param == Param::Top {
                            Param::Covariant
                        } else {
                            param
                        },
                        (fuel - 1) as nat,
                    )
                } else {
                    let px = q.s.parameters(xd);
                    let py = q.s.parameters(y);
                    if px == NULL || py == NULL {
                        (q, true)
                    } else {
                        let q = q.with_env(q.e.with_depth(1));
                        let (q1, ok) = q.params_equal(
                            px,
                            py,
                            q.s.svec_len(px) as nat,
                            q.s.svec_len(px) as nat,
                            (fuel - 1) as nat,
                        );
                        (q1.with_env(q1.e.with_depth(-1)), ok)
                    }
                },
            }
        }
    };
    assert(done == q.sub_datatype(x, y, param, fuel));
}

proof fn lemma_sub_tuple(q: Q, x: u32, y: u32, param: Param, fuel: nat)
    requires
        fuel > 0 ==> settled((fuel - 1) as nat),
    ensures
        steady(q, q.sub_tuple(x, y, param, fuel).0),
{
    reveal(Q::sub_tuple);
    lemma_parts();
    reveal(Q::check_length);
    let done = {
        let s = q.s;
        let px = s.parameters(x);
        let py = s.parameters(y);
        let lx = s.svec_seq(px).len() as int;
        let ly = s.svec_seq(py).len() as int;
        let xva = if lx > 0 {
            s.svec_ref(px, lx - 1)
        } else {
            NULL
        };
        let yva = if ly > 0 {
            s.svec_ref(py, ly - 1)
        } else {
            NULL
        };
        let kx = if lx > 0 {
            s.vararg_kind(xva)
        } else {
            VarargKind::Fixed
        };
        let ky = if ly > 0 {
            s.vararg_kind(yva)
        } else {
            VarargKind::Fixed
        };
        let xb = if kx == VarargKind::Bound {
            q.e.find(s.vararg_num(xva))
        } else {
            None
        };
        let pinned = match xb {
            Some(i) => s.is_boxed_long(q.e.vars[i].lb),
            None => false,
        };
        let y_fixed = ky == VarargKind::Fixed || ky == VarargKind::Int;
        if fuel == 0 {
            (q, false)
        } else if lx == 0 && ly == 0 {
            (q, true)
        } else if kx != VarargKind::Fixed && kx != VarargKind::Int && !pinned {
            if kx == VarargKind::Unbound || (xb is Some && !q.e.vars[xb->Some_0].existential) {
                if y_fixed || lx < ly {
                    (q, false)
                } else {
                    q.sub_tail_start(px, py, lx, ly, param, (fuel - 1) as nat)
                }
            } else if ky == VarargKind::Fixed {
                let (q, ok) = q.check_length(xva, (ly + 1 - lx) as i64, (fuel - 1) as nat);
                if ok {
                    q.sub_tail_start(px, py, lx, ly, param, (fuel - 1) as nat)
                } else {
                    (q, false)
                }
            } else {
                q.sub_tail_start(px, py, lx, ly, param, (fuel - 1) as nat)
            }
        } else {
            let nx = lx + q.tail_count(xva, kx, xb);
            let ny = if ky == VarargKind::Int {
                ly + s.unbox_int(s.vararg_num(yva)) - 1
            } else if ky != VarargKind::Fixed {
                ly - 1
            } else {
                ly
            };
            if (y_fixed && nx != ny) || (!y_fixed && ny > nx) {
                (q, false)
            } else {
                q.sub_tail_start(px, py, lx, ly, param, (fuel - 1) as nat)
            }
        }
    };
    assert(done == q.sub_tuple(x, y, param, fuel));
}

proof fn lemma_sub_tail_end(q: Q, lx: int, ly: int, vx: int, vy: int, yi: u32, fuel: nat)
    requires
        fuel > 0 ==> settled((fuel - 1) as nat),
    ensures
        steady(q, q.sub_tail_end(lx, ly, vx, vy, yi, fuel).0),
{
    reveal(Q::sub_tail_end);
    lemma_parts();
    reveal(Q::check_length);
    let done = {
        if fuel == 0 {
            (q, false)
        } else if vy > 0 && vx == 0 && lx + 1 >= ly {
            q.check_length(yi, (lx + 1 - ly) as i64, (fuel - 1) as nat)
        } else {
            (q, true)
        }
    };
    assert(done == q.sub_tail_end(lx, ly, vx, vy, yi, fuel));
}

proof fn lemma_sub_varargs(q: Q, vtx: u32, vty: u32, vx: int, vy: int, param: Param, fuel: nat)
    requires
        fuel > 0 ==> settled((fuel - 1) as nat),
    ensures
        steady(q, q.sub_varargs(vtx, vty, vx, vy, param, fuel).0),
{
    reveal(Q::sub_varargs);
    lemma_parts();
    reveal(Q::equate_lengths);
    reveal(Q::sub);
    let done = {
        let xp0 = q.s.vararg_elem(vtx);
        let xp1 = q.s.vararg_num(vtx);
        let yp0 = q.s.vararg_elem(vty);
        let yp1 = q.s.vararg_num(vty);
        let xlv = q.length_binding(xp1);
        let ylv = q.length_binding(yp1);
        let mx = match xlv {
            Some(i) => q.e.vars[i].max_offset,
            None => 0i8,
        };
        let my = match ylv {
            Some(i) => q.e.vars[i].max_offset,
            None => 0i8,
        };
        let xl = match xlv {
            Some(i) => q.e.vars[i].lb,
            None => xp1,
        };
        let yl = match ylv {
            Some(i) => q.e.vars[i].lb,
            None => yp1,
        };
        let exhausted = xp1 != NULL && q.s.is_boxed_long(xl) && q.s.unbox_int(xl) + 1 == vx;
        let y_long = yl != NULL && q.s.is_boxed_long(yl);
        if fuel == 0 {
            (q, false)
        } else if xp1 == NULL && y_long {
            (q, false)
        } else if exhausted && y_long {
            (q, q.s.unbox_int(yl) + 1 == vy)
        } else if exhausted && yl == NULL {
            q.equate_lengths(xp1, yp1, vx, vy, xlv, ylv, mx, my, (fuel - 1) as nat)
        } else {
            let (q1, ok1) = q.sub(xp0, yp0, param, (fuel - 1) as nat);
            if !ok1 {
                (q1, false)
            } else {
                let (q2, ok2) = q1.sub(xp0, yp0, Param::Covariant, (fuel - 1) as nat);
                if !ok2 {
                    (q2, false)
                } else {
                    q2.equate_lengths(xp1, yp1, vx, vy, xlv, ylv, mx, my, (fuel - 1) as nat)
                }
            }
        }
    };
    assert(done == q.sub_varargs(vtx, vty, vx, vy, param, fuel));
}

proof fn lemma_equate_lengths(
    q: Q,
    xp1: u32,
    yp1: u32,
    vx: int,
    vy: int,
    xlv: Option<int>,
    ylv: Option<int>,
    mx: i8,
    my: i8,
    fuel: nat,
)
    requires
        fuel > 0 ==> settled((fuel - 1) as nat),
    ensures
        steady(q, q.equate_lengths(xp1, yp1, vx, vy, xlv, ylv, mx, my, fuel).0),
{
    reveal(Q::equate_lengths);
    lemma_parts();
    reveal(Q::free_length);
    reveal(Q::equate_offsets);
    let done = {
        if fuel == 0 {
            (q, false)
        } else if yp1 == NULL {
            (q, true)
        } else if xp1 == NULL {
            q.free_length(yp1, my, (fuel - 1) as nat)
        } else {
            let e1 = q.e.with_depth(1);
            let bx = if q.s.is_typevar(xp1) {
                e1.find(xp1)
            } else {
                None
            };
            let by = if q.s.is_typevar(yp1) {
                e1.find(yp1)
            } else {
                None
            };
            let e2 = match bx {
                Some(i) => e1.mark_integer(i),
                None => e1,
            };
            let xn = match bx {
                Some(i) => if q.s.is_boxed_long(e2.lb_at(i)) {
                    e2.lb_at(i)
                } else {
                    xp1
                },
                None => xp1,
            };
            let e3 = match by {
                Some(i) => e2.mark_integer(i),
                None => e2,
            };
            let yn = match by {
                Some(i) => if q.s.is_boxed_long(e3.lb_at(i)) {
                    e3.lb_at(i)
                } else {
                    yp1
                },
                None => yp1,
            };
            let q = q.with_env(e3);
            let (q1, ok) = if q.s.is_boxed_long(xn) && q.s.is_boxed_long(yn) {
                (q, q.s.unbox_int(xn) - vx == q.s.unbox_int(yn) - vy)
            } else {
                q.equate_offsets(xn, yn, vx, vy, (fuel - 1) as nat)
            };
            let e4 = match ylv {
                Some(i) => q1.e.with_max_offset(i, my),
                None => q1.e,
            };
            let e5 = match xlv {
                Some(i) => e4.with_max_offset(i, mx),
                None => e4,
            };
            (q1.with_env(e5.with_depth(-1)), ok)
        }
    };
    assert(done == q.equate_lengths(xp1, yp1, vx, vy, xlv, ylv, mx, my, fuel));
}

proof fn lemma_free_length(q: Q, yp1: u32, my: i8, fuel: nat)
    requires
        fuel > 0 ==> settled((fuel - 1) as nat),
    ensures
        steady(q, q.free_length(yp1, my, fuel).0),
{
    reveal(Q::free_length);
    lemma_parts();
    reveal(Q::sub);
    let done = {
        let b = if q.s.is_typevar(yp1) {
            q.e.find(yp1)
        } else {
            None
        };
        let yl = match b {
            Some(i) => q.e.vars[i].lb,
            None => yp1,
        };
        let touched = match b {
            Some(i) => q.e.vars[i].depth0 != q.e.invdepth || q.e.vars[i].lb
                != q.s.builtin(id::BOTTOM) || q.e.vars[i].ub != q.s.builtin(id::ANY),
            None => false,
        };
        if fuel == 0 || q.s.is_boxed_long(yl) || touched {
            (q, false)
        } else {
            let e1 = match b {
                Some(i) => q.e.mark_integer(i),
                None => q.e,
            };
            let (q, ok) = q.with_env(e1.with_depth(1)).sub(
                q.s.builtin(id::ANY),
                yp1,
                Param::Invariant,
                (fuel - 1) as nat,
            );
            let e2 = match b {
                Some(i) => q.e.with_max_offset(i, my),
                None => q.e,
            };
            (q.with_env(e2.with_depth(-1)), ok)
        }
    };
    assert(done == q.free_length(yp1, my, fuel));
}

proof fn lemma_equate_offsets(q: Q, xn: u32, yn: u32, vx: int, vy: int, fuel: nat)
    requires
        fuel > 0 ==> settled((fuel - 1) as nat),
    ensures
        steady(q, q.equate_offsets(xn, yn, vx, vy, fuel).0),
{
    reveal(Q::equate_offsets);
    lemma_parts();
    reveal(Q::equal);
    let done = {
        if fuel == 0 {
            (q, false)
        } else if vx != vy && (q.s.is_boxed_long(xn) || q.s.is_boxed_long(yn)) {
            let left = q.s.is_boxed_long(xn);
            let (s1, b) = q.s.box_int(
                if left {
                    wrap(q.s.unbox_int(xn) + vy - vx)
                } else {
                    wrap(q.s.unbox_int(yn) + vx - vy)
                },
            );
            let q = Q { s: s1.push_root(b), e: q.e.with_loffset(0) };
            let (q1, ok) = if left {
                q.equal(b, yn, (fuel - 1) as nat)
            } else {
                q.equal(xn, b, (fuel - 1) as nat)
            };
            (Q { s: q1.s.pop_roots(1), e: q1.e.with_loffset(0) }, ok)
        } else {
            let q = q.with_env(
                q.e.with_loffset(
                    if -0x8000_0000 <= vx - vy <= 0x7fff_ffff {
                        (vx - vy) as i32
                    } else {
                        0i32
                    },
                ),
            );
            let (q1, ok) = q.equal(xn, yn, (fuel - 1) as nat);
            (q1.with_env(q1.e.with_loffset(0)), ok)
        }
    };
    assert(done == q.equate_offsets(xn, yn, vx, vy, fuel));
}

proof fn lemma_equal(q: Q, x: u32, y: u32, fuel: nat)
    requires
        fuel > 0 ==> settled((fuel - 1) as nat),
    ensures
        steady(q, q.equal(x, y, fuel).0),
{
    reveal(Q::equal);
    lemma_parts();
    reveal(Q::sub);
    reveal(Q::equal_slow);
    reveal(Q::equal_var);
    let done = {
        let s = q.s;
        if fuel == 0 {
            (q, false)
        } else if s.obviously_egal(x, y, MAX_NESTING as nat) {
            (q, q.e.loffset == 0)
        } else if (s.is_indefinite_tuple(x) && s.is_definite_tuple(y)) || (s.is_definite_tuple(x)
            && s.is_indefinite_tuple(y)) {
            (q, false)
        } else if s.is_datatype(x) && s.is_datatype(y) && s.name_of(x) != s.name_of(y) {
            (q, false)
        } else if s.is_datatype(x) && s.is_datatype(y) && !s.is_tuple(x) {
            q.sub(x, y, Param::Invariant, (fuel - 1) as nat)
        } else if s.is_union(x) && s.is_union(y) {
            let (q, general) = q.pick(true);
            if general {
                q.equal_slow(x, y, (fuel - 1) as nat)
            } else {
                let (q1, ok) = q.equal(s.union_a(x), s.union_a(y), (fuel - 1) as nat);
                if ok {
                    q1.equal(q1.s.union_b(x), q1.s.union_b(y), (fuel - 1) as nat)
                } else {
                    (q1, false)
                }
            }
        } else if q.e.loffset == 0 && s.is_typevar(y) && !s.is_typevar(x) && !s.is_boxed_long(
            x,
        ) {
            q.equal_var(y, x, (fuel - 1) as nat)
        } else {
            q.equal_slow(x, y, (fuel - 1) as nat)
        }
    };
    assert(done == q.equal(x, y, fuel));
}

proof fn lemma_equal_slow(q: Q, x: u32, y: u32, fuel: nat)
    requires
        fuel > 0 ==> settled((fuel - 1) as nat),
    ensures
        steady(q, q.equal_slow(x, y, fuel).0),
{
    reveal(Q::equal_slow);
    lemma_parts();
    reveal(Q::local);
    let done = {
        if fuel == 0 {
            (q, false)
        } else {
            let old_l = q.e.l.saved();
            let (q1, ok) = q.local(x, y, Param::Invariant, 2, (fuel - 1) as nat);
            let (q2, ok2) = if ok {
                let (q, b) = q1.with_env(q1.e.with_loffset(negate(q1.e.loffset))).local(
                    y,
                    x,
                    Param::Top,
                    0,
                    (fuel - 1) as nat,
                );
                (q.with_env(q.e.with_loffset(negate(q.e.loffset))), b)
            } else {
                (q1, false)
            };
            (q2.with_env(EnvV { l: q2.e.l.restored(old_l), ..q2.e }), ok2)
        }
    };
    assert(done == q.equal_slow(x, y, fuel));
}

proof fn lemma_equal_var(q: Q, v: u32, x: u32, fuel: nat)
    requires
        fuel > 0 ==> settled((fuel - 1) as nat),
    ensures
        steady(q, q.equal_var(v, x, fuel).0),
{
    reveal(Q::equal_var);
    lemma_parts();
    reveal(Q::local);
    reveal(Q::var_lt);
    reveal(Q::ccheck);
    reveal(State::join);
    let done = {
        if fuel == 0 {
            (q, false)
        } else {
            match q.e.find(v) {
                None => (q, x == v),
                Some(idx) => {
                    let q = q.record(idx, Param::Invariant);
                    let b = q.e.vars[idx];
                    if !b.existential {
                        let (q1, ok) = q.local(
                            x,
                            b.lb,
                            Param::Invariant,
                            if q.s.has_free_typevars(x) {
                                0
                            } else {
                                1
                            },
                            (fuel - 1) as nat,
                        );
                        if ok {
                            q1.local(b.ub, x, Param::Top, 0, (fuel - 1) as nat)
                        } else {
                            (q1, false)
                        }
                    } else if b.lb == x {
                        q.var_lt(x, idx, Param::Top, (fuel - 1) as nat)
                    } else {
                        let (q1, ok) = q.ccheck(x, b.ub, (fuel - 1) as nat);
                        if !ok {
                            (q1, false)
                        } else {
                            let (s2, j) = q1.s.join(q1.e.lb_at(idx), x, (fuel - 1) as nat);
                            let q2 = q1.with_state(s2).set_lb(idx, j);
                            if q2.e.ub_at(idx) == x {
                                (q2, true)
                            } else {
                                let (q3, ok3) = q2.ccheck(q2.e.lb_at(idx), x, (fuel - 1) as nat);
                                if ok3 {
                                    (q3.set_ub(idx, x), true)
                                } else {
                                    (q3, false)
                                }
                            }
                        }
                    }
                },
            }
        }
    };
    assert(done == q.equal_var(v, x, fuel));
}

proof fn lemma_local(q: Q, x: u32, y: u32, param: Param, limit: int, fuel: nat)
    requires
        fuel > 0 ==> settled((fuel - 1) as nat),
    ensures
        steady(q, q.local(x, y, param, limit, fuel).0),
{
    reveal(Q::local);
    lemma_parts();
    reveal(State::subtype);
    reveal(Q::forall_exists);
    reveal(Q::left_loop);
    reveal(Q::slow_outer);
    let done = {
        let kx = !q.s.has_free_typevars(x);
        let ky = !q.s.has_free_typevars(y);
        if fuel == 0 {
            (q, false)
        } else if q.s.obviously_in_union(y, x, MAX_NESTING as nat) {
            (q, true)
        } else if kx && ky {
            let (s, ok) = q.s.subtype(x, y, (fuel - 1) as nat);
            (q.with_state(s), ok)
        } else if !((!kx && q.s.has_existential_typevar(x, q.e)) || (!ky
            && q.s.has_existential_typevar(y, q.e))) {
            let old_r = q.e.r.saved();
            let q = q.with_env(
                EnvV { l: q.e.l.cleared(), r: q.e.r.cleared(), ..q.e },
            );
            let (q1, ok) = q.forall_exists(x, y, param, (fuel - 1) as nat);
            (q1.with_env(EnvV { r: q1.e.r.restored(old_r), ..q1.e }), ok)
        } else if q.is_existential_typevar(x) != q.is_existential_typevar(y) {
            q.with_env(EnvV { l: UnionV { used: 0, ..q.e.l }, ..q.e }).left_loop(
                x,
                y,
                param,
                (fuel - 1) as nat,
                MAX_PASSES as nat,
            )
        } else {
            let limited_by = if limit == 2 {
                kx || ky
            } else {
                limit != 0
            };
            let rmore = q.e.r.more;
            let (q, se) = q.save();
            let st = SlowV { se, limited: false, ini_count: 0, latest: None, count: 0 };
            let (q1, st1, ok) = q.slow_outer(
                x,
                y,
                param,
                limited_by,
                rmore,
                st,
                (fuel - 1) as nat,
                MAX_PASSES as nat,
            );
            let q2 = if ok && q1.e.r.more > rmore && (st1.limited || q1.s.env_unchanged(
                q1.e,
                st1.se,
            )) {
                q1.with_env(q1.e.with_rmore(rmore))
            } else {
                q1
            };
            (q2.release(se), ok)
        }
    };
    assert(done == q.local(x, y, param, limit, fuel));
}

proof fn lemma_sub_ground(q: Q, x: u32, y: u32, param: Param, fuel: nat)
    requires
        fuel > 0 ==> settled((fuel - 1) as nat),
    ensures
        steady(q, q.sub_ground(x, y, param, fuel).0),
{
    reveal(Q::sub_ground);
    reveal(Q::sub_unionall);
    reveal(Q::sub);
    reveal(Q::sub_kind);
    reveal(Q::sub_datatype);
    let done = {
        let s = q.s;
        if fuel == 0 {
            (q, false)
        } else if y == s.builtin(id::ANY) || x == s.builtin(id::BOTTOM) {
            (q, true)
        } else if s.is_unionall(x) {
            q.sub_unionall(y, x, false, param, (fuel - 1) as nat)
        } else if s.is_unionall(y) {
            q.sub_unionall(x, y, true, param, (fuel - 1) as nat)
        } else if s.is_type_type(x) && !s.is_type_type(y) {
            let t0 = s.svec_ref(s.parameters(x), 0);
            if s.is_typevar(t0) {
                q.sub(s.builtin(id::TYPE), y, param, (fuel - 1) as nat)
            } else {
                q.sub(s.tag(t0), y, param, (fuel - 1) as nat)
            }
        } else if s.is_type_type(y) && !s.is_type_type(x) {
            if s.is_typevar(s.svec_ref(s.parameters(y), 0)) && s.is_kind(x) {
                q.sub_kind(y, param, (fuel - 1) as nat)
            } else {
                (q, false)
            }
        } else if s.is_boxed_long(x) || s.is_boxed_long(y) {
            (q, s.is_boxed_long(x) && s.is_boxed_long(y) && q.longs_equal(x, y))
        } else {
            q.sub_datatype(x, y, param, (fuel - 1) as nat)
        }
    };
    assert(done == q.sub_ground(x, y, param, fuel));
}

proof fn lemma_sub_vars(q: Q, x: u32, y: u32, param: Param, fuel: nat)
    requires
        fuel > 0 ==> settled((fuel - 1) as nat),
    ensures
        steady(q, q.sub_vars(x, y, param, fuel).0),
{
    reveal(Q::sub_vars);
    lemma_sub_ground(q, x, y, param, fuel);
    reveal(Q::sub);
    reveal(Q::two_vars);
    reveal(Q::sub_unionall);
    reveal(Q::sub_var);
    reveal(Q::sub_ground);
    let done = {
        if fuel == 0 {
            (q, false)
        } else if q.s.is_intersect(y) {
            let (q, ok) = q.sub(x, q.s.union_a(y), param, (fuel - 1) as nat);
            if ok {
                q.sub(x, q.s.union_b(y), param, (fuel - 1) as nat)
            } else {
                (q, false)
            }
        } else if q.s.is_typevar(x) {
            if q.s.is_typevar(y) {
                q.two_vars(x, y, param, (fuel - 1) as nat)
            } else if q.s.is_unionall(y) && q.opens(x, y) {
                q.sub_unionall(x, y, true, param, (fuel - 1) as nat)
            } else {
                q.sub_var(x, y, false, param, (fuel - 1) as nat)
            }
        } else if q.s.is_typevar(y) {
            q.sub_var(y, x, true, param, (fuel - 1) as nat)
        } else {
            q.sub_ground(x, y, param, fuel)
        }
    };
    assert(done == q.sub_vars(x, y, param, fuel));
}

proof fn lemma_sub_right(q: Q, x: u32, y: u32, param: Param, fuel: nat)
    requires
        fuel > 0 ==> settled((fuel - 1) as nat),
    ensures
        steady(q, q.sub_right(x, y, param, fuel).0),
{
    reveal(Q::sub_right);
    lemma_parts();
    assert forall|p: Q, y1: u32| steady(p, (#[trigger] p.sub_vars(x, y1, param, fuel)).0) by {
        lemma_sub_vars(p, x, y1, param, fuel);
    }
    reveal(Q::sub_vars);
    reveal(Q::sub_unionall);
    let done = {
        if fuel == 0 {
            (q, false)
        } else if !q.s.is_union(y) {
            q.sub_vars(x, y, param, fuel)
        } else if q.s.obviously_in_union(y, x, MAX_NESTING as nat) {
            (q, true)
        } else if q.s.is_unionall(x) {
            q.sub_unionall(y, x, false, param, (fuel - 1) as nat)
        } else if q.s.is_typevar(x) && !existential(q.e, x) && !q.s.has_free_typevars(
            y,
        ) {
            q.sub_vars(x, y, param, fuel)
        } else {
            let (q, split) = if q.s.is_typevar(x) {
                q.pick(true)
            } else {
                (q, true)
            };
            if split {
                let (q1, y1) = q.pick_element(y, true, MAX_NESTING as nat);
                q1.sub_vars(x, y1, param, fuel)
            } else {
                q.sub_vars(x, y, param, fuel)
            }
        }
    };
    assert(done == q.sub_right(x, y, param, fuel));
}

proof fn lemma_sub(q: Q, x: u32, y: u32, param: Param, fuel: nat)
    requires
        fuel > 0 ==> settled((fuel - 1) as nat),
    ensures
        steady(q, q.sub(x, y, param, fuel).0),
{
    reveal(Q::sub);
    lemma_parts();
    assert forall|p: Q, x1: u32| steady(p, (#[trigger] p.sub_right(x1, y, param, fuel)).0) by {
        lemma_sub_right(p, x1, y, param, fuel);
    }
    reveal(Q::sub_var);
    reveal(Q::sub_right);
    let done = {
        if x == y && q.e.loffset == 0 {
            (q, true)
        } else if fuel == 0 {
            (q, false)
        } else if q.s.is_union(x) {
            if q.s.obviously_egal(x, y, MAX_NESTING as nat) {
                (q, true)
            } else if q.e.r.depth == 0 && q.s.is_typevar(y) && !q.s.has_free_typevars(x)
                && q.takes_union(y) {
                q.sub_var(y, x, true, param, (fuel - 1) as nat)
            } else {
                let (q, x1) = q.pick_element(x, false, MAX_NESTING as nat);
                q.sub_right(x1, y, param, fuel)
            }
        } else {
            q.sub_right(x, y, param, fuel)
        }
    };
    assert(done == q.sub(x, y, param, fuel));
}

proof fn lemma_params_equal(q: Q, px: u32, py: u32, n: nat, k: nat, fuel: nat)
    requires
        fuel > 0 ==> settled((fuel - 1) as nat),
    ensures
        steady(q, q.params_equal(px, py, n, k, fuel).0),
    decreases k,
{
    reveal(Q::params_equal);
    if k > 0 {
        assert forall|p: Q|
            steady(p, (#[trigger] p.params_equal(px, py, n, (k - 1) as nat, fuel)).0) by {
            lemma_params_equal(p, px, py, n, (k - 1) as nat, fuel);
        }
    }
    reveal(Q::equal);
    let done = {
        if fuel == 0 {
            (q, false)
        } else if k == 0 || k > n {
            (q, true)
        } else {
            let xi = q.s.svec_ref(px, n - k);
            let yi = q.s.svec_ref(py, n - k);
            let (q, ok) = if xi == yi {
                (q, true)
            } else {
                q.equal(xi, yi, (fuel - 1) as nat)
            };
            if ok {
                q.params_equal(px, py, n, (k - 1) as nat, fuel)
            } else {
                (q, false)
            }
        }
    };
    assert(done == q.params_equal(px, py, n, k, fuel));
}

proof fn lemma_left_loop(q: Q, x: u32, y: u32, param: Param, fuel: nat, n: nat)
    requires
        fuel > 0 ==> settled((fuel - 1) as nat),
    ensures
        steady(q, q.left_loop(x, y, param, fuel, n).0),
    decreases n,
{
    reveal(Q::left_loop);
    if n > 0 {
        assert forall|p: Q|
            steady(p, (#[trigger] p.left_loop(x, y, param, fuel, (n - 1) as nat)).0) by {
            lemma_left_loop(p, x, y, param, fuel, (n - 1) as nat);
        }
    }
    reveal(Q::sub);
    let done = {
        if fuel == 0 || n == 0 {
            (q, false)
        } else {
            let q = q.with_env(EnvV { l: q.e.l.rewound(), ..q.e });
            let (q1, ok) = q.sub(x, y, param, (fuel - 1) as nat);
            if !ok {
                (q1, false)
            } else {
                let (q2, more) = q1.next(false);
                if more {
                    q2.left_loop(x, y, param, fuel, (n - 1) as nat)
                } else {
                    (q2, true)
                }
            }
        }
    };
    assert(done == q.left_loop(x, y, param, fuel, n));
}

proof fn lemma_slow_inner(
    q: Q,
    x: u32,
    y: u32,
    param: Param,
    limited_by: bool,
    rmore: usize,
    st: SlowV,
    fuel: nat,
    n: nat,
)
    requires
        fuel > 0 ==> settled((fuel - 1) as nat),
    ensures
        steady(q, q.slow_inner(x, y, param, limited_by, rmore, st, fuel, n).0),
    decreases n,
{
    reveal(Q::slow_inner);
    if n > 0 {
        assert forall|p: Q, st2: SlowV|
            steady(p, (
                #[trigger] p.slow_inner(x, y, param, limited_by, rmore, st2, fuel, (n - 1) as nat)
            ).0) by {
            lemma_slow_inner(p, x, y, param, limited_by, rmore, st2, fuel, (n - 1) as nat);
        }
    }
    reveal(Q::sub);
    let done = {
        if fuel == 0 || n == 0 {
            (q, st, false)
        } else {
            let q = q.with_env(EnvV { l: q.e.l.rewound(), ..q.e });
            let count = if st.count < 4 {
                (st.count + 1) as u32
            } else {
                st.count
            };
            let (q1, ok) = q.sub(x, y, param, (fuel - 1) as nat);
            let st1 = SlowV { count, limited: st.limited || (limited_by && count == 4), ..st };
            if !ok {
                (q1, st1, false)
            } else {
                let (q2, more) = q1.next(false);
                if !more {
                    (q2, st1, true)
                } else if st1.limited || q2.e.r.more == rmore {
                    let latest = q2.e.l.saved();
                    let (q3, se) = q2.resave(st1.se);
                    q3.with_env(q3.e.with_rmore(rmore)).slow_inner(
                        x,
                        y,
                        param,
                        limited_by,
                        rmore,
                        SlowV { ini_count: count, latest: Some(latest), se, ..st1 },
                        fuel,
                        (n - 1) as nat,
                    )
                } else {
                    q2.slow_inner(x, y, param, limited_by, rmore, st1, fuel, (n - 1) as nat)
                }
            }
        }
    };
    assert(done == q.slow_inner(x, y, param, limited_by, rmore, st, fuel, n));
}

proof fn lemma_slow_outer(
    q: Q,
    x: u32,
    y: u32,
    param: Param,
    limited_by: bool,
    rmore: usize,
    st: SlowV,
    fuel: nat,
    n: nat,
)
    requires
        fuel > 0 ==> settled((fuel - 1) as nat),
    ensures
        steady(q, q.slow_outer(x, y, param, limited_by, rmore, st, fuel, n).0),
    decreases n,
{
    reveal(Q::slow_outer);
    if n > 0 {
        assert forall|p: Q, st2: SlowV|
            steady(p, (
                #[trigger] p.slow_outer(x, y, param, limited_by, rmore, st2, fuel, (n - 1) as nat)
            ).0) by {
            lemma_slow_outer(p, x, y, param, limited_by, rmore, st2, fuel, (n - 1) as nat);
        }
    }
    assert forall|p: Q, st2: SlowV|
        steady(
            p,
            (#[trigger] p.slow_inner(
                x,
                y,
                param,
                limited_by,
                rmore,
                st2,
                fuel,
                MAX_PASSES as nat,
            )).0,
        ) by {
        lemma_slow_inner(p, x, y, param, limited_by, rmore, st2, fuel, MAX_PASSES as nat);
    }
    lemma_parts();
    reveal(Q::slow_inner);
    let done = {
        if fuel == 0 || n == 0 {
            (q, st, false)
        } else {
            let l = match st.latest {
                Some(u) => if st.ini_count == 0 {
                    UnionV { used: 0, ..q.e.l }
                } else {
                    q.e.l.restored(u)
                },
                None => UnionV { used: 0, ..q.e.l },
            };
            let (q1, st1, ok) = q.with_env(EnvV { l, ..q.e }).slow_inner(
                x,
                y,
                param,
                limited_by,
                rmore,
                SlowV { count: st.ini_count, ..st },
                fuel,
                MAX_PASSES as nat,
            );
            if ok || q1.e.r.more == rmore {
                (q1, st1, ok)
            } else {
                let (q2, more) = q1.next(true);
                let q3 = q2.restore(st1.se);
                q3.with_env(q3.e.with_rmore(rmore)).slow_outer(
                    x,
                    y,
                    param,
                    limited_by,
                    rmore,
                    st1,
                    fuel,
                    (n - 1) as nat,
                )
            }
        }
    };
    assert(done == q.slow_outer(x, y, param, limited_by, rmore, st, fuel, n));
}

proof fn lemma_exists_loop(q: Q, x: u32, y: u32, param: Param, se: SavedV, fuel: nat, n: nat)
    requires
        fuel > 0 ==> settled((fuel - 1) as nat),
    ensures
        steady(q, q.exists_loop(x, y, param, se, fuel, n).0),
    decreases n,
{
    reveal(Q::exists_loop);
    if n > 0 {
        assert forall|p: Q|
            steady(p, (#[trigger] p.exists_loop(x, y, param, se, fuel, (n - 1) as nat)).0) by {
            lemma_exists_loop(p, x, y, param, se, fuel, (n - 1) as nat);
        }
    }
    lemma_parts();
    reveal(Q::sub);
    let done = {
        if fuel == 0 || n == 0 {
            (q, false)
        } else {
            let q = q.with_env(
                EnvV { l: q.e.l.rewound(), r: q.e.r.rewound(), ..q.e },
            );
            let (q1, ok) = q.sub(x, y, param, (fuel - 1) as nat);
            if ok {
                (q1, true)
            } else {
                let (q2, more) = q1.next(true);
                let q3 = q2.restore(se);
                if more {
                    q3.exists_loop(x, y, param, se, fuel, (n - 1) as nat)
                } else {
                    (q3, false)
                }
            }
        }
    };
    assert(done == q.exists_loop(x, y, param, se, fuel, n));
}

proof fn lemma_forall_loop(q: Q, x: u32, y: u32, param: Param, se: SavedV, fuel: nat, n: nat)
    requires
        fuel > 0 ==> settled((fuel - 1) as nat),
    ensures
        steady(q, q.forall_loop(x, y, param, se, fuel, n).0),
    decreases n,
{
    reveal(Q::forall_loop);
    if n > 0 {
        assert forall|p: Q, se2: SavedV|
            steady(p, (#[trigger] p.forall_loop(x, y, param, se2, fuel, (n - 1) as nat)).0) by {
            lemma_forall_loop(p, x, y, param, se2, fuel, (n - 1) as nat);
        }
    }
    assert forall|p: Q, se2: SavedV|
        steady(p, (#[trigger] p.exists_loop(x, y, param, se2, fuel, MAX_PASSES as nat)).0) by {
        lemma_exists_loop(p, x, y, param, se2, fuel, MAX_PASSES as nat);
    }
    lemma_parts();
    reveal(Q::exists_loop);
    let done = {
        if fuel == 0 || n == 0 {
            (q, false)
        } else {
            let (q1, ok) = q.with_env(
                EnvV { r: UnionV { used: 0, ..q.e.r }, ..q.e },
            ).exists_loop(x, y, param, se, fuel, MAX_PASSES as nat);
            if !ok {
                (q1, false)
            } else {
                let (q2, more) = q1.next(false);
                if more {
                    let (q3, se1) = q2.resave(se);
                    q3.forall_loop(x, y, param, se1, fuel, (n - 1) as nat)
                } else {
                    (q2, true)
                }
            }
        }
    };
    assert(done == q.forall_loop(x, y, param, se, fuel, n));
}

proof fn lemma_forall_exists(q: Q, x: u32, y: u32, param: Param, fuel: nat)
    requires
        fuel > 0 ==> settled((fuel - 1) as nat),
    ensures
        steady(q, q.forall_exists(x, y, param, fuel).0),
{
    reveal(Q::forall_exists);
    reveal(Q::forall_loop);
    let done = {
        if fuel == 0 {
            (q, false)
        } else {
            let (q, se) = q.save();
            let (q1, ok) = q.with_env(
                EnvV { l: UnionV { used: 0, ..q.e.l }, ..q.e },
            ).forall_loop(x, y, param, se, (fuel - 1) as nat, MAX_PASSES as nat);
            (q1.release(se), ok)
        }
    };
    assert(done == q.forall_exists(x, y, param, fuel));
}

proof fn lemma_sub_tail(
    q: Q,
    px: u32,
    py: u32,
    lx: int,
    ly: int,
    i: int,
    j: int,
    vx0: nat,
    vy0: nat,
    xi0: u32,
    yi0: u32,
    param: Param,
    fuel: nat,
)
    requires
        fuel > 0 ==> settled((fuel - 1) as nat),
    ensures
        steady(q, q.sub_tail(px, py, lx, ly, i, j, vx0, vy0, xi0, yi0, param, fuel).0),
    decreases gap(i, lx) + gap(j, ly),
{
    reveal(Q::sub_tail);
    assert forall|p: Q, i2: int, j2: int, vx2: nat, vy2: nat, xi2: u32, yi2: u32|
        gap(i2, lx) + gap(j2, ly) < gap(i, lx) + gap(j, ly) implies steady(
        p,
        (#[trigger] p.sub_tail(px, py, lx, ly, i2, j2, vx2, vy2, xi2, yi2, param, fuel)).0,
    ) by {
        lemma_sub_tail(p, px, py, lx, ly, i2, j2, vx2, vy2, xi2, yi2, param, fuel);
    }
    reveal(Q::sub_tail_end);
    reveal(Q::sub_varargs);
    reveal(Q::sub);
    let done = {
        let xi = if i < lx {
            q.s.svec_ref(px, i)
        } else {
            xi0
        };
        let vx = if i == lx - 1 && (vx0 > 0 || q.s.is_vararg(xi)) {
            vx0 + 1nat
        } else {
            vx0
        };
        let yi = if j < ly {
            q.s.svec_ref(py, j)
        } else {
            yi0
        };
        let vy = if j == ly - 1 && (vy0 > 0 || q.s.is_vararg(yi)) {
            vy0 + 1nat
        } else {
            vy0
        };
        if fuel == 0 {
            (q, false)
        } else if i >= lx {
            q.sub_tail_end(lx, ly, vx as int, vy as int, yi, (fuel - 1) as nat)
        } else if vx > 0 && vy > 0 {
            q.sub_varargs(xi, yi, vx as int, vy as int, param, (fuel - 1) as nat)
        } else if vy == 1 && q.s.vararg_elem(yi) == q.s.builtin(id::ANY) {
            let xlast = q.s.svec_ref(px, lx - 1);
            if q.s.is_vararg(xlast) {
                q.sub_varargs(xlast, yi, 1, vy + (lx - i - 1), param, (fuel - 1) as nat)
            } else {
                q.sub_tail_end(lx, ly, vx as int, vy as int, yi, (fuel - 1) as nat)
            }
        } else if j >= ly {
            (q, vx > 0)
        } else {
            let xe = if vx > 0 {
                q.s.vararg_elem(xi)
            } else {
                xi
            };
            let ye = if vy > 0 {
                q.s.vararg_elem(yi)
            } else {
                yi
            };
            let (q, ok) = q.sub(xe, ye, param, (fuel - 1) as nat);
            let i1 = if i < lx - 1 || vx == 0 {
                i + 1
            } else {
                i
            };
            let j1 = if j < ly - 1 || vy == 0 {
                j + 1
            } else {
                j
            };
            if ok {
                q.sub_tail(px, py, lx, ly, i1, j1, vx, vy, xi, yi, param, fuel)
            } else {
                (q, false)
            }
        }
    };
    assert(done == q.sub_tail(px, py, lx, ly, i, j, vx0, vy0, xi0, yi0, param, fuel));
}

proof fn lemma_sub_tail_start(q: Q, px: u32, py: u32, lx: int, ly: int, param: Param, fuel: nat)
    requires
        fuel > 0 ==> settled((fuel - 1) as nat),
    ensures
        steady(q, q.sub_tail_start(px, py, lx, ly, param, fuel).0),
{
    reveal(Q::sub_tail);
    lemma_sub_tail(q, px, py, lx, ly, 0, 0, 0, 0, NULL, NULL, param, fuel);
    assert(q.sub_tail_start(px, py, lx, ly, param, fuel) == q.sub_tail(
        px,
        py,
        lx,
        ly,
        0,
        0,
        0,
        0,
        NULL,
        NULL,
        param,
        fuel,
    ));
}

proof fn lemma_subtype(s: State, a: u32, b: u32, fuel: nat)
    requires
        fuel > 0 ==> settled((fuel - 1) as nat),
    ensures
        level(s, s.subtype(a, b, fuel).0),
{
    reveal(State::subtype);
    reveal(Q::forall_exists);
    let q = Q { s: s.push_roots(seq![a, b]), e: EnvV::empty() };
    lemma_forall_exists(q, a, b, Param::Top, fuel);
}

proof fn lemma_meet(s: State, a: u32, b: u32, mode: int, fuel: nat)
    requires
        fuel > 0 ==> settled((fuel - 1) as nat),
    ensures
        level(s, s.meet(a, b, mode, fuel).0),
{
    reveal(State::meet);
    lemma_parts();
    reveal(State::meet_unions);
    let done = {
        let any = s.builtin(id::ANY);
        let bottom = s.builtin(id::BOTTOM);
        if fuel == 0 {
            (s, b)
        } else if a == any || b == bottom || s.obviously_egal(a, b, MAX_NESTING as nat) {
            (s, b)
        } else if b == any || a == bottom {
            (s, a)
        } else if mode == 1 && (s.is_intersect(a) || s.is_intersect(b)) {
            s.intersect_type(a, b)
        } else if !s.is_type_or_typevar(a) || !s.is_type_or_typevar(b) {
            (s, bottom)
        } else if s.is_kind(a) && s.is_type_type(b) && s.tag(
            s.svec_ref(s.parameters(b), 0),
        ) == a {
            (s, b)
        } else if s.is_kind(b) && s.is_type_type(a) && s.tag(
            s.svec_ref(s.parameters(a), 0),
        ) == b {
            (s, a)
        } else if s.is_typevar(a) && s.obviously_egal(
            b,
            s.tvar_ub(a),
            MAX_NESTING as nat,
        ) {
            (s, a)
        } else if s.is_typevar(b) && s.obviously_egal(
            a,
            s.tvar_ub(b),
            MAX_NESTING as nat,
        ) {
            (s, b)
        } else {
            s.meet_unions(a, b, mode, (fuel - 1) as nat)
        }
    };
    assert(done == s.meet(a, b, mode, fuel));
}

proof fn lemma_disjoint(s: State, x: u32, y: u32, fuel: nat)
    requires
        fuel > 0 ==> settled((fuel - 1) as nat),
    ensures
        level(s, s.disjoint(x, y, fuel).0),
{
    reveal(State::disjoint);
    lemma_parts();
    reveal(State::subtype);
    let done = {
        if fuel == 0 || x == y || !s.is_datatype(x) || !s.is_datatype(y) || s.is_tuple(x)
            || s.is_tuple(y) || s.is_type_type(x) || s.is_type_type(y)
            || s.has_free_typevars(x) || s.has_free_typevars(y) {
            (s, false)
        } else {
            let (s1, xy) = s.subtype(x, y, (fuel - 1) as nat);
            if xy {
                (s1, false)
            } else {
                let (s2, yx) = s1.subtype(y, x, (fuel - 1) as nat);
                (s2, !yx)
            }
        }
    };
    assert(done == s.disjoint(x, y, fuel));
}

proof fn lemma_join(s: State, a: u32, b: u32, fuel: nat)
    requires
        fuel > 0 ==> settled((fuel - 1) as nat),
    ensures
        level(s, s.join(a, b, fuel).0),
{
    reveal(State::join);
    lemma_parts();
    reveal(State::union_all);
    let done = {
        let any = s.builtin(id::ANY);
        let bottom = s.builtin(id::BOTTOM);
        if a == bottom || b == any || a == b {
            (s, b)
        } else if fuel == 0 || b == bottom || a == any {
            (s, a)
        } else {
            s.union_all(seq![a, b], (fuel - 1) as nat)
        }
    };
    assert(done == s.join(a, b, fuel));
}

proof fn lemma_alive_row(s: State, comps: Seq<u32>, alive: Seq<bool>, i: int, j: int, fuel: nat)
    requires
        fuel > 0 ==> settled((fuel - 1) as nat),
    ensures
        level(s, s.alive_row(comps, alive, i, j, fuel).0),
    decreases comps.len() - j,
{
    reveal(State::alive_row);
    if j < comps.len() {
        assert forall|p: State, alive2: Seq<bool>|
            level(p, (#[trigger] p.alive_row(comps, alive2, i, j + 1, fuel)).0) by {
            lemma_alive_row(p, comps, alive2, i, j + 1, fuel);
        }
    }
    reveal(State::disjoint);
    let done = {
        if fuel == 0 || i < 0 || j < 0 || i >= comps.len() || j >= comps.len() || alive.len()
            != comps.len() {
            (s, alive)
        } else if alive[i] && alive[j] {
            s.alive_row(comps, alive, i, j + 1, fuel)
        } else {
            let (s, d) = s.disjoint(comps[i], comps[j], (fuel - 1) as nat);
            s.alive_row(
                comps,
                if d {
                    alive
                } else {
                    alive.update(i, true).update(j, true)
                },
                i,
                j + 1,
                fuel,
            )
        }
    };
    assert(done == s.alive_row(comps, alive, i, j, fuel));
}

proof fn lemma_alive_rows(s: State, comps: Seq<u32>, alive: Seq<bool>, na: int, i: int, fuel: nat)
    requires
        fuel > 0 ==> settled((fuel - 1) as nat),
    ensures
        level(s, s.alive_rows(comps, alive, na, i, fuel).0),
    decreases na - i,
{
    reveal(State::alive_rows);
    lemma_alive_row(s, comps, alive, i, na, fuel);
    if i < na {
        assert forall|p: State, alive2: Seq<bool>|
            level(p, (#[trigger] p.alive_rows(comps, alive2, na, i + 1, fuel)).0) by {
            lemma_alive_rows(p, comps, alive2, na, i + 1, fuel);
        }
    }
    reveal(State::alive_row);
    let done = {
        if fuel == 0 || i < 0 || i >= na {
            (s, alive)
        } else {
            let (s, a) = s.alive_row(comps, alive, i, na, fuel);
            s.alive_rows(comps, a, na, i + 1, fuel)
        }
    };
    assert(done == s.alive_rows(comps, alive, na, i, fuel));
}

proof fn lemma_standing_row(
    s: State,
    comps: Seq<u32>,
    alive: Seq<bool>,
    st: Seq<i8>,
    i: int,
    j: int,
    fuel: nat,
)
    requires
        fuel > 0 ==> settled((fuel - 1) as nat),
    ensures
        level(s, s.standing_row(comps, alive, st, i, j, fuel).0),
    decreases comps.len() - j,
{
    reveal(State::standing_row);
    if j < comps.len() {
        assert forall|p: State, st2: Seq<i8>|
            level(p, (#[trigger] p.standing_row(comps, alive, st2, i, j + 1, fuel)).0) by {
            lemma_standing_row(p, comps, alive, st2, i, j + 1, fuel);
        }
    }
    reveal(State::subtype);
    let done = {
        if fuel == 0 || i < 0 || j < 0 || i >= comps.len() || j >= comps.len() || alive.len()
            != comps.len() || st.len() != comps.len() {
            (s, st)
        } else if !alive[j] {
            s.standing_row(comps, alive, st, i, j + 1, fuel)
        } else {
            let (s1, ij) = s.subtype(comps[i], comps[j], (fuel - 1) as nat);
            let (s2, ji) = s1.subtype(comps[j], comps[i], (fuel - 1) as nat);
            s2.standing_row(comps, alive, stand(st, i, j, ij, ji), i, j + 1, fuel)
        }
    };
    assert(done == s.standing_row(comps, alive, st, i, j, fuel));
}

proof fn lemma_standing_rows(
    s: State,
    comps: Seq<u32>,
    alive: Seq<bool>,
    st: Seq<i8>,
    na: int,
    i: int,
    fuel: nat,
)
    requires
        fuel > 0 ==> settled((fuel - 1) as nat),
    ensures
        level(s, s.standing_rows(comps, alive, st, na, i, fuel).0),
    decreases na - i,
{
    reveal(State::standing_rows);
    lemma_standing_row(s, comps, alive, st, i, na, fuel);
    if i < na {
        assert forall|p: State, st2: Seq<i8>|
            level(p, (#[trigger] p.standing_rows(comps, alive, st2, na, i + 1, fuel)).0) by {
            lemma_standing_rows(p, comps, alive, st2, na, i + 1, fuel);
        }
    }
    reveal(State::standing_row);
    let done = {
        if fuel == 0 || i < 0 || i >= na || i >= alive.len() {
            (s, st)
        } else if !alive[i] {
            s.standing_rows(comps, alive, st, na, i + 1, fuel)
        } else {
            let (s, t) = s.standing_row(comps, alive, st, i, na, fuel);
            s.standing_rows(comps, alive, t, na, i + 1, fuel)
        }
    };
    assert(done == s.standing_rows(comps, alive, st, na, i, fuel));
}

proof fn lemma_survives(s: State, comps: Seq<u32>, keep: Seq<bool>, i: int, j: int, fuel: nat)
    requires
        fuel > 0 ==> settled((fuel - 1) as nat),
    ensures
        level(s, s.survives(comps, keep, i, j, fuel).0),
    decreases comps.len() - j,
{
    reveal(State::survives);
    if j < comps.len() {
        assert forall|p: State|
            level(p, (#[trigger] p.survives(comps, keep, i, j + 1, fuel)).0) by {
            lemma_survives(p, comps, keep, i, j + 1, fuel);
        }
    }
    reveal(State::subtype);
    let done = {
        if fuel == 0 || i < 0 || j < 0 || i >= comps.len() || j >= comps.len() || keep.len()
            != comps.len() {
            (s, true)
        } else if i == j || !keep[j] {
            s.survives(comps, keep, i, j + 1, fuel)
        } else {
            let (s1, ij) = s.subtype(comps[i], comps[j], (fuel - 1) as nat);
            if !ij {
                s1.survives(comps, keep, i, j + 1, fuel)
            } else {
                let (s2, ji) = s1.subtype(comps[j], comps[i], (fuel - 1) as nat);
                if ji && i < j {
                    s2.survives(comps, keep, i, j + 1, fuel)
                } else {
                    (s2, false)
                }
            }
        }
    };
    assert(done == s.survives(comps, keep, i, j, fuel));
}

proof fn lemma_survivors(s: State, comps: Seq<u32>, keep: Seq<bool>, i: int, fuel: nat)
    requires
        fuel > 0 ==> settled((fuel - 1) as nat),
    ensures
        level(s, s.survivors(comps, keep, i, fuel).0),
    decreases comps.len() - i,
{
    reveal(State::survivors);
    lemma_survives(s, comps, keep, i, 0, fuel);
    if i < comps.len() {
        assert forall|p: State, keep2: Seq<bool>|
            level(p, (#[trigger] p.survivors(comps, keep2, i + 1, fuel)).0) by {
            lemma_survivors(p, comps, keep2, i + 1, fuel);
        }
    }
    reveal(State::survives);
    let done = {
        if fuel == 0 || i < 0 || i >= comps.len() || keep.len() != comps.len() {
            (s, keep)
        } else if comps[i] == s.builtin(id::BOTTOM) {
            s.survivors(comps, keep.update(i, false), i + 1, fuel)
        } else {
            let (s, ok) = s.survives(comps, keep, i, 0, fuel);
            s.survivors(comps, keep.update(i, ok), i + 1, fuel)
        }
    };
    assert(done == s.survivors(comps, keep, i, fuel));
}

proof fn lemma_meet_unions(s: State, a: u32, b: u32, mode: int, fuel: nat)
    requires
        fuel > 0 ==> settled((fuel - 1) as nat),
    ensures
        level(s, s.meet_unions(a, b, mode, fuel).0),
{
    reveal(State::meet_unions);
    lemma_parts();
    reveal(State::alive_rows);
    reveal(State::standing_rows);
    reveal(State::union_all);
    let done = {
        if fuel == 0 {
            (s, b)
        } else {
            let bottom = s.builtin(id::BOTTOM);
            let ca = s.flatten(a, MAX_NESTING as nat);
            let comps = ca + s.flatten(b, MAX_NESTING as nat);
            let na = ca.len() as int;
            let n = comps.len() as int;
            let (s1, alive) = s.alive_rows(
                comps,
                Seq::new(comps.len(), |i: int| false),
                na,
                0,
                (fuel - 1) as nat,
            );
            let (s2, st) = s1.standing_rows(
                comps,
                alive,
                Seq::new(comps.len(), |i: int| 0i8),
                na,
                0,
                (fuel - 1) as nat,
            );
            let none = !any_alive(alive, 0, na);
            let sub_a = none || all_below(alive, st, 0, na, false);
            let sub_b = none || all_below(alive, st, na, n, false);
            if !none && all_below(alive, st, 0, na, true) {
                (s2, a)
            } else if !none && all_below(alive, st, na, n, true) {
                (s2, b)
            } else if none || (mode == 0 && !sub_a && !sub_b) {
                (s2, bottom)
            } else if !sub_a && !sub_b && mode == 1 {
                s2.intersect_type(a, b)
            } else {
                let keep = if sub_a {
                    kept(comps, alive, st, 0, na, -2, na)
                } else if sub_b {
                    kept(comps, alive, st, na, n, -2, n)
                } else {
                    kept(comps, alive, st, 0, na, 2, na) + kept(comps, alive, st, na, n, 0, n)
                };
                if keep.len() == 0 {
                    (s2, bottom)
                } else {
                    s2.union_all(keep, (fuel - 1) as nat)
                }
            }
        }
    };
    assert(done == s.meet_unions(a, b, mode, fuel));
}

proof fn lemma_widen(s: State, t: u32, fuel: nat)
    requires
        fuel > 0 ==> settled((fuel - 1) as nat),
    ensures
        level(s, s.widen(t, fuel).0),
{
    reveal(State::widen);
    lemma_parts();
    reveal(State::meet);
    let done = {
        if fuel == 0 || !s.is_intersect(t) {
            (s, t)
        } else {
            let (s1, a) = s.widen(s.union_a(t), (fuel - 1) as nat);
            let (s2, b) = s1.push_root(a).widen(s1.union_b(t), (fuel - 1) as nat);
            let (s3, m) = s2.push_root(b).meet(a, b, 2, (fuel - 1) as nat);
            (s3.pop_roots(2), m)
        }
    };
    assert(done == s.widen(t, fuel));
}

proof fn lemma_union_all(s: State, parts: Seq<u32>, fuel: nat)
    requires
        fuel > 0 ==> settled((fuel - 1) as nat),
    ensures
        level(s, s.union_all(parts, fuel).0),
{
    reveal(State::union_all);
    lemma_parts();
    reveal(State::survivors);
    let done = {
        if fuel == 0 {
            (s, s.builtin(id::ANY))
        } else {
            let s0 = s.push_roots(parts);
            let comps = s0.flatten_all(parts, parts.len() as int);
            let (s1, keep) = s0.survivors(
                comps,
                Seq::new(comps.len(), |i: int| true),
                0,
                (fuel - 1) as nat,
            );
            let left = filter_kept(comps, keep, comps.len() as int);
            let members = dedup(s1.sorted(left, left.len() as int));
            if members.len() == 0 {
                (s1.pop_roots(parts.len() as int), s.builtin(id::BOTTOM))
            } else {
                let (s2, u) = s1.nest_unions(members, members.len() - 1, members.last());
                (s2.pop_roots(parts.len() as int), u)
            }
        }
    };
    assert(done == s.union_all(parts, fuel));
}

/// Every query leaves the shadow stack as high as it was.
#[verifier::rlimit(60)]
#[verifier::spinoff_prover]
proof fn lemma_settled(fuel: nat)
    ensures
        settled(fuel),
    decreases fuel,
{
    if fuel > 0 {
        lemma_settled((fuel - 1) as nat);
    }
    assert forall|q: Q, x: u32, y: u32, param: Param|
        steady(q, (#[trigger] q.sub(x, y, param, fuel)).0) by {
        lemma_sub(q, x, y, param, fuel);
    }
    assert forall|q: Q, x: u32, y: u32, param: Param|
        steady(q, (#[trigger] q.sub_right(x, y, param, fuel)).0) by {
        lemma_sub_right(q, x, y, param, fuel);
    }
    assert forall|q: Q, x: u32, y: u32, param: Param|
        steady(q, (#[trigger] q.sub_vars(x, y, param, fuel)).0) by {
        lemma_sub_vars(q, x, y, param, fuel);
    }
    assert forall|q: Q, x: u32, y: u32, param: Param|
        steady(q, (#[trigger] q.sub_ground(x, y, param, fuel)).0) by {
        lemma_sub_ground(q, x, y, param, fuel);
    }
    assert forall|q: Q, y: u32, param: Param|
        steady(q, (#[trigger] q.sub_kind(y, param, fuel)).0) by {
        lemma_sub_kind(q, y, param, fuel);
    }
    assert forall|q: Q, t: u32, u: u32, r: bool, param: Param|
        steady(q, (#[trigger] q.sub_unionall(t, u, r, param, fuel)).0) by {
        lemma_sub_unionall(q, t, u, r, param, fuel);
    }
    assert forall|q: Q, b: u32, a: u32, r: bool, param: Param|
        steady(q, (#[trigger] q.sub_var(b, a, r, param, fuel)).0) by {
        lemma_sub_var(q, b, a, r, param, fuel);
    }
    assert forall|q: Q, x: u32, y: u32, param: Param|
        steady(q, (#[trigger] q.sub_left_var(x, y, param, fuel)).0) by {
        lemma_sub_left_var(q, x, y, param, fuel);
    }
    assert forall|q: Q, x: u32, y: u32, param: Param|
        steady(q, (#[trigger] q.in_forall_scope(x, y, param, fuel)).0) by {
        lemma_in_forall_scope(q, x, y, param, fuel);
    }
    assert forall|q: Q, a: u32, idx: int, param: Param|
        steady(q, (#[trigger] q.var_lt(a, idx, param, fuel)).0) by {
        lemma_var_lt(q, a, idx, param, fuel);
    }
    assert forall|q: Q, a: u32, idx: int, param: Param|
        steady(q, (#[trigger] q.var_gt(a, idx, param, fuel)).0) by {
        lemma_var_gt(q, a, idx, param, fuel);
    }
    assert forall|q: Q, a: u32, b: u32| steady(q, (#[trigger] q.ccheck(a, b, fuel)).0) by {
        lemma_ccheck(q, a, b, fuel);
    }
    assert forall|q: Q, x: u32, y: u32, param: Param|
        steady(q, (#[trigger] q.two_vars(x, y, param, fuel)).0) by {
        lemma_two_vars(q, x, y, param, fuel);
    }
    assert forall|q: Q, v: u32, n: i64| steady(q, (#[trigger] q.check_length(v, n, fuel)).0) by {
        lemma_check_length(q, v, n, fuel);
    }
    assert forall|q: Q, x: u32, y: u32, param: Param|
        steady(q, (#[trigger] q.sub_datatype(x, y, param, fuel)).0) by {
        lemma_sub_datatype(q, x, y, param, fuel);
    }
    assert forall|q: Q, px: u32, py: u32, n: nat, k: nat|
        steady(q, (#[trigger] q.params_equal(px, py, n, k, fuel)).0) by {
        lemma_params_equal(q, px, py, n, k, fuel);
    }
    assert forall|q: Q, x: u32, y: u32, param: Param|
        steady(q, (#[trigger] q.sub_tuple(x, y, param, fuel)).0) by {
        lemma_sub_tuple(q, x, y, param, fuel);
    }
    assert forall|q: Q, px: u32, py: u32, lx: int, ly: int, param: Param|
        steady(q, (#[trigger] q.sub_tail_start(px, py, lx, ly, param, fuel)).0) by {
        lemma_sub_tail_start(q, px, py, lx, ly, param, fuel);
    }
    assert forall|q: Q, lx: int, ly: int, vx: int, vy: int, yi: u32|
        steady(q, (#[trigger] q.sub_tail_end(lx, ly, vx, vy, yi, fuel)).0) by {
        lemma_sub_tail_end(q, lx, ly, vx, vy, yi, fuel);
    }
    assert forall|q: Q, vtx: u32, vty: u32, vx: int, vy: int, param: Param|
        steady(q, (#[trigger] q.sub_varargs(vtx, vty, vx, vy, param, fuel)).0) by {
        lemma_sub_varargs(q, vtx, vty, vx, vy, param, fuel);
    }
    assert forall|
        q: Q, xp1: u32, yp1: u32, vx: int, vy: int, xlv: Option<int>, ylv: Option<int>,
        mx: i8, my: i8,
    |
        steady(q, (#[trigger] q.equate_lengths(xp1, yp1, vx, vy, xlv, ylv, mx, my, fuel)).0) by {
        lemma_equate_lengths(q, xp1, yp1, vx, vy, xlv, ylv, mx, my, fuel);
    }
    assert forall|q: Q, yp1: u32, my: i8|
        steady(q, (#[trigger] q.free_length(yp1, my, fuel)).0) by {
        lemma_free_length(q, yp1, my, fuel);
    }
    assert forall|q: Q, xn: u32, yn: u32, vx: int, vy: int|
        steady(q, (#[trigger] q.equate_offsets(xn, yn, vx, vy, fuel)).0) by {
        lemma_equate_offsets(q, xn, yn, vx, vy, fuel);
    }
    assert forall|q: Q, x: u32, y: u32| steady(q, (#[trigger] q.equal(x, y, fuel)).0) by {
        lemma_equal(q, x, y, fuel);
    }
    assert forall|q: Q, x: u32, y: u32| steady(q, (#[trigger] q.equal_slow(x, y, fuel)).0) by {
        lemma_equal_slow(q, x, y, fuel);
    }
    assert forall|q: Q, v: u32, x: u32| steady(q, (#[trigger] q.equal_var(v, x, fuel)).0) by {
        lemma_equal_var(q, v, x, fuel);
    }
    assert forall|q: Q, x: u32, y: u32, param: Param, limit: int|
        steady(q, (#[trigger] q.local(x, y, param, limit, fuel)).0) by {
        lemma_local(q, x, y, param, limit, fuel);
    }
    assert forall|q: Q, x: u32, y: u32, param: Param, n: nat|
        steady(q, (#[trigger] q.left_loop(x, y, param, fuel, n)).0) by {
        lemma_left_loop(q, x, y, param, fuel, n);
    }
    assert forall|
        q: Q, x: u32, y: u32, param: Param, limited_by: bool, rmore: usize, st: SlowV,
        n: nat,
    |
        steady(q, (#[trigger] q.slow_outer(x, y, param, limited_by, rmore, st, fuel, n)).0) by {
        lemma_slow_outer(q, x, y, param, limited_by, rmore, st, fuel, n);
    }
    assert forall|q: Q, x: u32, y: u32, param: Param|
        steady(q, (#[trigger] q.forall_exists(x, y, param, fuel)).0) by {
        lemma_forall_exists(q, x, y, param, fuel);
    }
    assert forall|q: Q, x: u32, y: u32, param: Param, se: SavedV, n: nat|
        steady(q, (#[trigger] q.forall_loop(x, y, param, se, fuel, n)).0) by {
        lemma_forall_loop(q, x, y, param, se, fuel, n);
    }
    assert forall|s: State, a: u32, b: u32| level(s, (#[trigger] s.subtype(a, b, fuel)).0) by {
        lemma_subtype(s, a, b, fuel);
    }
    assert forall|s: State, a: u32, b: u32, mode: int|
        level(s, (#[trigger] s.meet(a, b, mode, fuel)).0) by {
        lemma_meet(s, a, b, mode, fuel);
    }
    assert forall|s: State, x: u32, y: u32| level(s, (#[trigger] s.disjoint(x, y, fuel)).0) by {
        lemma_disjoint(s, x, y, fuel);
    }
    assert forall|s: State, comps: Seq<u32>, alive: Seq<bool>, na: int, i: int|
        level(s, (#[trigger] s.alive_rows(comps, alive, na, i, fuel)).0) by {
        lemma_alive_rows(s, comps, alive, na, i, fuel);
    }
    assert forall|s: State, comps: Seq<u32>, alive: Seq<bool>, st: Seq<i8>, na: int, i: int|
        level(s, (#[trigger] s.standing_rows(comps, alive, st, na, i, fuel)).0) by {
        lemma_standing_rows(s, comps, alive, st, na, i, fuel);
    }
    assert forall|s: State, a: u32, b: u32, mode: int|
        level(s, (#[trigger] s.meet_unions(a, b, mode, fuel)).0) by {
        lemma_meet_unions(s, a, b, mode, fuel);
    }
    assert forall|s: State, t: u32| level(s, (#[trigger] s.widen(t, fuel)).0) by {
        lemma_widen(s, t, fuel);
    }
    assert forall|s: State, a: u32, b: u32| level(s, (#[trigger] s.join(a, b, fuel)).0) by {
        lemma_join(s, a, b, fuel);
    }
    assert forall|s: State, comps: Seq<u32>, keep: Seq<bool>, i: int|
        level(s, (#[trigger] s.survivors(comps, keep, i, fuel)).0) by {
        lemma_survivors(s, comps, keep, i, fuel);
    }
    assert forall|s: State, parts: Seq<u32>| level(s, (#[trigger] s.union_all(parts, fuel)).0) by {
        lemma_union_all(s, parts, fuel);
    }
}

/// A subtype query leaves the shadow stack as high as it was, and so does the
/// normalisation of a union.
pub proof fn law_queries_balance(s: State, a: u32, b: u32, parts: Seq<u32>, fuel: nat)
    ensures
        s.subtype(a, b, fuel).0.roots.len() == s.roots.len(),
        s.union_all(parts, fuel).0.roots.len() == s.roots.len(),
        s.meet(a, b, 0, fuel).0.roots.len() == s.roots.len(),
        s.join(a, b, fuel).0.roots.len() == s.roots.len(),
{
    lemma_settled(fuel);
    assert(level(s, s.subtype(a, b, fuel).0));
    assert(level(s, s.union_all(parts, fuel).0));
    assert(level(s, s.meet(a, b, 0, fuel).0));
    assert(level(s, s.join(a, b, fuel).0));
}

/// Storing an element leaves the shadow stack as high as it was.
proof fn lemma_mem_set(s: State, m: u32, i: u32, v: u32)
    ensures
        level(s, s.mem_set(m, i, v).0),
{
    reveal(State::mem_set);
    balance::law_errors_balance(s, m, (i + 1) as i64, Seq::empty());
    let elem = s.mem_elem(m);
    let vt = s.tag(v);
    let p = s.push_roots(seq![m, v]);
    law_queries_balance(p, vt, elem, Seq::empty(), MAX_NESTING as nat);
    let (a, ok) = p.elem_accepts(elem, vt);
    let b = a.pop_roots(2);
    assert(level(s, b));
    if ok {
        match b.inline_size(b.mem_elem(m)) {
            Some(n) => {
                balance::lemma_payload(b, m, crate::memory::DATA + n * i, v, 0, n as int, 0);
            },
            None => {},
        }
    } else {
        balance::law_errors_balance(b, m, 0, b.misfit_text(elem, vt));
    }
}

proof fn lemma_arr_set(s: State, a: u32, i: u32, v: u32)
    ensures
        level(s, s.arr_set(a, i, v).0),
{
    balance::law_errors_balance(s, a, (i + 1) as i64, Seq::empty());
    lemma_mem_set(s, s.arr_mem(a), crate::structs::clip(s.arr_offset(a) + i), v);
}

proof fn lemma_arr_push(s: State, a: u32, v: u32)
    ensures
        level(s, s.arr_push(a, v).0),
{
    reveal(State::arr_push);
    let p = s.push_roots(seq![a, v]);
    balance::law_arrays_balance(p, 0, 0, a, 1);
    let (b, r) = p.arr_grow(a, 1);
    let n = b.arr_len(a);
    lemma_arr_set(
        b,
        a,
        if n > 0 {
            (n - 1) as u32
        } else {
            0
        },
        v,
    );
}

proof fn lemma_binding(s: State, b: u32, sym: u32, n: u32, i: int)
    ensures
        level(s, s.binding_from(b, sym, n, i).0),
    decreases n + 1 - i,
{
    if !(i < 0 || i >= n) {
        balance::law_arrays_balance(s, 0, 0, b, i as u32);
        let (a, r) = s.arr_get(b, i as u32);
        lemma_binding(a, b, sym, n, i + 2);
    }
}

/// Storing into buffers and arrays, pushing, and binding globals leave the shadow stack
/// as high as it was.
pub proof fn law_stores_balance(s: State, a: u32, i: u32, v: u32, m: u32, sym: u32)
    ensures
        s.mem_set(a, i, v).0.roots.len() == s.roots.len(),
        s.arr_set(a, i, v).0.roots.len() == s.roots.len(),
        s.arr_push(a, v).0.roots.len() == s.roots.len(),
        s.set_global(m, sym, v).0.roots.len() == s.roots.len(),
{
    lemma_mem_set(s, a, i, v);
    lemma_arr_set(s, a, i, v);
    lemma_arr_push(s, a, v);
    reveal(State::set_global);
    let p = s.push_roots(seq![m, v]);
    let b = p.word(m, 8);
    lemma_binding(p, b, sym, p.arr_len(b), 0);
    let (s1, r) = p.binding_from(b, sym, p.arr_len(b), 0);
    match r {
        Ok(Some(k)) => {
            lemma_arr_set(s1, b, crate::module::clip_index(k + 1), v);
        },
        Ok(None) => {
            lemma_arr_push(s1, b, sym);
            let s2 = s1.arr_push(b, sym).0;
            lemma_arr_push(s2, s2.word(m, 8), v);
        },
        Err(_) => {},
    }
}

// --- substitution -----------------------------------------------------------

/// Whether every substitution of the given fuel leaves the shadow stack as high as it
/// was.
spec fn replaced(fuel: nat) -> bool {
    forall|s: State, t: u32, var: u32, val: u32|
        level(s, (#[trigger] s.subst(t, var, val, fuel)).0)
}

/// Substitution in a list leaves one root for each part that was done.
proof fn lemma_subst_list(
    s: State,
    ts: Seq<u32>,
    var: u32,
    val: u32,
    done: Seq<u32>,
    fuel: nat,
)
    requires
        fuel > 0,
        replaced((fuel - 1) as nat),
        done.len() <= ts.len(),
    ensures
        ({
            let (e, r) = s.subst_list(ts, var, val, done, fuel);
            &&& r.len() == ts.len()
            &&& e.roots.len() == s.roots.len() + ts.len() - done.len()
        }),
    decreases ts.len() - done.len(),
{
    reveal(State::subst_list);
    reveal(State::subst);
    if done.len() < ts.len() {
        let (e, r) = s.subst(ts[done.len() as int], var, val, (fuel - 1) as nat);
        lemma_subst_list(e.push_root(r), ts, var, val, done.push(r), fuel);
    }
}

proof fn lemma_subst_where(s: State, t: u32, var: u32, val: u32, fuel: nat)
    requires
        fuel > 0,
        replaced((fuel - 1) as nat),
    ensures
        level(s, s.subst_where(t, var, val, fuel).0),
{
    reveal(State::subst_where);
    reveal(State::subst);
    let v = s.unionall_var(t);
    let body = s.unionall_body(t);
    let (s1, lb) = s.subst(s.tvar_lb(v), var, val, (fuel - 1) as nat);
    let (s2, ub) = s1.push_root(lb).subst(s.tvar_ub(v), var, val, (fuel - 1) as nat);
    let s3 = s2.push_root(ub);
    if lb == s.tvar_lb(v) && ub == s.tvar_ub(v) {
        let (s4, b) = s3.subst(body, var, val, (fuel - 1) as nat);
        lemma_refs(s4.pop_roots(2), s4.builtin(id::UNIONALL), seq![v, b]);
    } else {
        lemma_refs(s3, s3.builtin(id::TVAR), seq![s.tvar_name(v), lb, ub]);
        let (s4, w) = s3.typevar(s.tvar_name(v), lb, ub);
        let (s5, b1) = s4.push_root(w).subst(body, v, w, (fuel - 1) as nat);
        let (s6, b2) = s5.push_root(b1).subst(b1, var, val, (fuel - 1) as nat);
        lemma_refs(s6.pop_roots(4), s6.builtin(id::UNIONALL), seq![w, b2]);
    }
}

proof fn lemma_subst(s: State, t: u32, var: u32, val: u32, fuel: nat)
    requires
        fuel > 0 ==> replaced((fuel - 1) as nat),
    ensures
        level(s, s.subst(t, var, val, fuel).0),
{
    reveal(State::subst);
    reveal(State::subst_where);
    reveal(State::subst_list);
    if fuel > 0 {
        let f: nat = (fuel - 1) as nat;
        if s.is_union(t) {
            let (s1, a) = s.subst(s.union_a(t), var, val, f);
            let (s2, b) = s1.push_root(a).subst(s.union_b(t), var, val, f);
            law_queries_balance(s2.pop_roots(1), a, b, seq![a, b], MAX_NESTING as nat);
        } else if s.is_unionall(t) {
            lemma_subst_where(s, t, var, val, fuel);
        } else if s.is_vararg(t) {
            let (s1, a) = s.subst(s.vararg_elem(t), var, val, f);
            let (s2, b) = s1.push_root(a).subst(s.vararg_num(t), var, val, f);
            lemma_refs(s2.pop_roots(1), s2.builtin(id::VARARG), seq![a, b]);
        } else if s.is_datatype(t) && s.parameters(t) != NULL {
            let old_params = s.svec_seq(s.parameters(t));
            lemma_subst_list(s, old_params, var, val, Seq::empty(), fuel);
            let (s1, params) = s.subst_list(old_params, var, val, Seq::empty(), fuel);
            if params != old_params {
                let (s2, super_) = s1.subst(s.supertype(t), var, val, f);
                balance::law_instantiation_balances(
                    s2.push_root(super_),
                    s.name_of(t),
                    super_,
                    params,
                    s.layout(t),
                    s.size_of(t),
                );
            }
        }
    }
}

proof fn lemma_replaced(fuel: nat)
    ensures
        replaced(fuel),
    decreases fuel,
{
    if fuel > 0 {
        lemma_replaced((fuel - 1) as nat);
    }
    assert forall|s: State, t: u32, var: u32, val: u32|
        level(s, (#[trigger] s.subst(t, var, val, fuel)).0) by {
        lemma_subst(s, t, var, val, fuel);
    }
}

/// Applying a `where` type leaves the shadow stack as high as it was.
pub proof fn law_substitution_balances(s: State, u: u32, p: u32)
    ensures
        s.instantiate(u, p).0.roots.len() == s.roots.len(),
{
    let a = s.push_roots(seq![u, p]);
    lemma_replaced(MAX_NESTING as nat);
    assert(level(
        a,
        a.subst(s.unionall_body(u), s.unionall_var(u), p, MAX_NESTING as nat).0,
    ));
}

// --- structs ----------------------------------------------------------------

proof fn lemma_misfit(s: State, t: u32, args: Seq<Value>, i: int)
    ensures
        level(s, s.misfit(t, args, i).0),
    decreases args.len() - i,
{
    if !(i < 0 || i >= args.len()) {
        law_queries_balance(
            s,
            s.tag(args[i].0),
            s.field_type(t, i),
            Seq::empty(),
            MAX_NESTING as nat,
        );
        let (a, ok) = s.is_a(args[i].0, s.field_type(t, i));
        lemma_misfit(a, t, args, i + 1);
    }
}

proof fn lemma_field(s: State, v: u32, t: u32, i: int, rhs: u32)
    ensures
        level(s, s.set_field_raw(v, t, i, rhs)),
{
    balance::lemma_payload(
        s,
        v,
        s.field_offset(t, i) as int,
        rhs,
        0,
        s.field_size(t, i) as int,
        0,
    );
}

proof fn lemma_fields(s: State, v: u32, t: u32, args: Seq<Value>, i: int)
    ensures
        level(s, s.set_fields(v, t, args, i)),
    decreases args.len() - i,
{
    if !(i < 0 || i >= args.len()) {
        lemma_field(s, v, t, i, args[i].0);
        lemma_fields(s.set_field_raw(v, t, i, args[i].0), v, t, args, i + 1);
    }
}

/// Making a struct, reading a field and assigning one leave the shadow stack as high as
/// it was.
pub proof fn law_structs_balance(s: State, t: u32, args: Seq<Value>, v: u32, i: u32, rhs: u32)
    ensures
        s.new_struct(t, args).0.roots.len() == s.roots.len(),
        s.get_nth_field(v, i).0.roots.len() == s.roots.len(),
        s.set_nth_field(v, i, rhs).0.roots.len() == s.roots.len(),
{
    lemma_new_struct(s, t, args);
    reveal(State::get_nth_field);
    reveal(State::set_nth_field);
    let vt = s.tag(v);
    let ft = s.field_type(vt, i as int);
    let n = s.field_size(vt, i as int);
    let p = s.push_root(v);
    crate::object::lemma_alloc_object_keeps(p, ft, n as int);
    let (a, b) = p.alloc_object(ft, n as int);
    balance::lemma_payload(
        a.pop_roots(1),
        b,
        0,
        v,
        s.field_offset(vt, i as int) as int,
        n as int,
        0,
    );
    let q = s.push_roots(seq![v, rhs]);
    law_queries_balance(q, q.tag(rhs), ft, Seq::empty(), MAX_NESTING as nat);
    let c = q.is_a(rhs, ft).0.pop_roots(2);
    lemma_field(c, v, vt, i as int, rhs);
}

proof fn lemma_new_struct(s: State, t: u32, args: Seq<Value>)
    ensures
        level(s, s.new_struct(t, args).0),
{
    reveal(State::new_struct);
    let p = s.push_roots(args.map_values(|v: Value| v.0));
    lemma_misfit(p, t, args, 0);
    let a = p.misfit(t, args, 0).0;
    crate::object::lemma_alloc_object_keeps(a, t, a.size_of(t) as int);
    let (b, v) = a.alloc_object(t, a.size_of(t) as int);
    lemma_fields(b, v, t, args, 0);
}

} // verus!
