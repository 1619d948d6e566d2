//! What the bounds of a variable mean for subtyping.
//!
//! A `where` type stands for all types that its body is for some value of its variable
//! between the bounds. Against an invariant constructor over the variable the value is
//! fixed, and it has to lie between the bounds.

use vstd::prelude::*;
use crate::access::MAX_NESTING;
use crate::env::{bounds, EnvV, Param, Q, UnionV, VarBinding};
use crate::ground::{law_nested_query, law_plain_query, lemma_agree_same, lemma_plain_same};
use crate::id;
use crate::region::{NULL, REGION_SIZE};
use crate::state::State;
use crate::subtype_spec::{clear_cov, cov_counts, fold_cov, MAX_PASSES};

verus! {

/// Whether the tags of variables, unions, meets and `where` types are told apart.
pub open spec fn kinds_apart(s: State) -> bool {
    let (u, v, w, m, n) = (
        s.builtin(id::UNION),
        s.builtin(id::TVAR),
        s.builtin(id::UNIONALL),
        s.builtin(id::INTERSECT),
        s.builtin(id::INT64),
    );
    &&& u != v && u != w && u != m && u != n
    &&& v != w && v != m && v != n
    &&& w != m && w != n
    &&& m != n
}

/// Whether `u` is a `where` type over the variable `v` with the given bounds.
pub open spec fn quantifies(s: State, u: u32, v: u32, lb: u32, ub: u32) -> bool {
    &&& s.is_unionall(u)
    &&& s.is_typevar(v)
    &&& s.unionall_var(u) == v
    &&& s.tvar_lb(v) == lb
    &&& s.tvar_ub(v) == ub
    &&& u != s.builtin(id::ANY)
}

/// Whether `t` is a constructor other than a tuple over the sole parameter `p`.
pub open spec fn constructs(s: State, t: u32, p: u32) -> bool {
    &&& s.is_datatype(t)
    &&& !s.is_tuple(t)
    &&& !s.is_type_type(t)
    &&& t != s.builtin(id::ANY)
    &&& t != s.builtin(id::BOTTOM)
    &&& s.parameters(t) != NULL
    &&& s.svec_len(s.parameters(t)) == 1
    &&& s.svec_ref(s.parameters(t), 0) == p
}

/// Whether `x` is a subtype of `y`.
pub open spec fn is_below(s: State, x: u32, y: u32) -> bool {
    s.subtype(x, y, MAX_NESTING as nat).1
}

/// A walk that meets no union answers the query at once.
pub proof fn lemma_verdict(s: State, a: u32, b: u32, fuel: nat)
    requires
        fuel >= 2,
        ({
            let q = Q { s: s.push_roots(seq![a, b]), e: EnvV::empty() };
            let (q1, ok) = q.sub(a, b, Param::Top, (fuel - 2) as nat);
            if ok {
                q1.e.l.more == 0
            } else {
                q1.e.r.more == 0
            }
        }),
    ensures
        ({
            let q = Q { s: s.push_roots(seq![a, b]), e: EnvV::empty() };
            s.subtype(a, b, fuel).1 == q.sub(a, b, Param::Top, (fuel - 2) as nat).1
        }),
{
    reveal(State::subtype);
    reveal(Q::forall_exists);
    reveal(Q::forall_loop);
    reveal(Q::exists_loop);
    reveal(Q::sub);
    let q = Q { s: s.push_roots(seq![a, b]), e: EnvV::empty() };
    let (q0, se) = q.save();
    assert(bounds(q.e.vars) =~= Seq::<u32>::empty());
    assert(q.s.push_roots(Seq::<u32>::empty()) =~= q.s);
    assert(q0 =~= q);
    let f: nat = (fuel - 1) as nat;
    let n: nat = MAX_PASSES as nat;
    let (q1, ok) = q.sub(a, b, Param::Top, (fuel - 2) as nat);
    assert(q.with_env(EnvV { l: q.e.l.rewound(), r: q.e.r.rewound(), ..q.e }) =~= q);
    assert(q.exists_loop(a, b, Param::Top, se, f, n).1 == ok);
    assert(ok ==> q.exists_loop(a, b, Param::Top, se, f, n).0 == q1);
    assert(q.with_env(EnvV { r: UnionV { used: 0, ..q.e.r }, ..q.e }) =~= q);
    assert(q.forall_loop(a, b, Param::Top, se, f, n).1 == ok);
    assert(q.with_env(EnvV { l: UnionV { used: 0, ..q.e.l }, ..q.e }) =~= q);
}

/// Whether no variable occurred in a covariant position, or must be concrete.
pub open spec fn unmoved(vars: Seq<VarBinding>) -> bool {
    forall|i: int|
        0 <= i < vars.len() ==> (#[trigger] vars[i]).occurs_cov == 0 && vars[i].cov_diag == 0
            && !vars[i].concrete
}

/// What a query on plain types asks of the heap.
pub open spec fn sound_types(s: State) -> bool {
    s.types_agree() && kinds_apart(s) && 8 * s.objs.len() <= REGION_SIZE
}

/// The check of a bound, for plain types.
#[verifier::rlimit(40)]
pub proof fn lemma_ccheck(q: Q, a: u32, b: u32, fuel: nat)
    requires
        sound_types(q.s),
        q.s.plain(a),
        q.s.plain(b),
        unmoved(q.e.vars),
        8 * q.s.objs.len() + 9 <= fuel <= MAX_NESTING,
    ensures
        q.ccheck(a, b, fuel) == (q, is_below(q.s, a, b)),
{
    reveal(Q::ccheck);
    let s = q.s;
    let n = s.objs.len();
    law_plain_query(s, a, b, MAX_NESTING as nat);
    assert(n > 0);
    if a == b || a == s.builtin(id::BOTTOM) || b == s.builtin(id::ANY) {
    } else if a == s.builtin(id::ANY) && s.is_datatype(b) {
        assert(!s.below(a, b, 2 * n)) by {
            if s.name_of(a) == s.name_of(b) {
                assert(s.namesakes(a, b));
            }
            assert(s.super_named(a, s.name_of(b), MAX_NESTING as nat) is None);
        }
    } else if s.obviously_in_union(b, a, MAX_NESTING as nat) {
        crate::ground::lemma_egal_below(s, b, n, a, n, 2 * n, (MAX_NESTING - 1) as nat);
    } else {
        let vars = clear_cov(q.e.vars, false);
        assert(vars =~= q.e.vars);
        let q0 = q.with_env(EnvV { vars, ..q.e });
        assert(q0 =~= q);
        law_nested_query(q, a, b, Param::Top, 1, (fuel - 1) as nat);
        assert(fold_cov(q.e.vars, cov_counts(q.e.vars), false) =~= q.e.vars);
        assert(q.e.l.restored(q.e.l.saved()) =~= q.e.l);
    }
}

/// Which of two plain components survive: the first unless it is strictly below the
/// second, and the second unless it is below the first, where that survives.
#[verifier::rlimit(40)]
pub proof fn lemma_two_survive(s: State, l: u32, a: u32, fuel: nat)
    requires
        sound_types(s),
        s.plain(l),
        s.plain(a),
        l != s.builtin(id::BOTTOM),
        a != s.builtin(id::BOTTOM),
        8 * s.objs.len() + 9 <= fuel <= MAX_NESTING,
    ensures
        ({
            let first = !(is_below(s, l, a) && !is_below(s, a, l));
            let second = !(first && is_below(s, a, l));
            s.survivors(seq![l, a], seq![true, true], 0, fuel) == (s, seq![first, second])
        }),
{
    reveal(State::survivors);
    reveal(State::survives);
    reveal(State::subtype);
    let f: nat = (fuel - 1) as nat;
    let cs = seq![l, a];
    let both = seq![true, true];
    law_plain_query(s, l, a, f);
    law_plain_query(s, a, l, f);
    law_plain_query(s, l, a, MAX_NESTING as nat);
    law_plain_query(s, a, l, MAX_NESTING as nat);
    let la = is_below(s, l, a);
    let al = is_below(s, a, l);
    assert(s.subtype(l, a, f) == (s, la));
    assert(s.subtype(a, l, f) == (s, al));
    let first = !(la && !al);
    assert(s.survives(cs, both, 0, 2, fuel) == (s, true));
    assert(s.survives(cs, both, 0, 1, fuel) == (s, first));
    assert(s.survives(cs, both, 0, 0, fuel) == (s, first));
    let k1 = seq![first, true];
    assert(both.update(0, first) =~= k1);
    let second = !(first && al);
    assert(s.survives(cs, k1, 1, 2, fuel) == (s, true));
    assert(s.survives(cs, k1, 1, 1, fuel) == (s, true));
    assert(s.survives(cs, k1, 1, 0, fuel) == (s, second));
    let k2 = seq![first, second];
    assert(k1.update(1, second) =~= k2);
    assert(s.survivors(cs, k2, 2, fuel) == (s, k2));
    assert(s.survivors(cs, k1, 1, fuel) == (s, k2));
    assert(s.survivors(cs, both, 0, fuel) == (s, k2));
}

/// Roots do not matter to what plain types are.
pub proof fn lemma_rooted_types(s: State, t: State, l: u32, a: u32)
    requires
        sound_types(s),
        s.plain(l),
        s.plain(a),
        t == (State { roots: t.roots, ..s }),
    ensures
        sound_types(t),
        t.plain(l),
        t.plain(a),
        is_below(t, l, a) == is_below(s, l, a),
        is_below(t, a, l) == is_below(s, a, l),
{
    lemma_agree_same(s, t);
    lemma_plain_same(s, t, l, s.objs.len());
    lemma_plain_same(s, t, a, s.objs.len());
    crate::ground::lemma_below_same(s, t, l, a, 2 * s.objs.len());
    crate::ground::lemma_below_same(s, t, a, l, 2 * s.objs.len());
    law_plain_query(t, l, a, MAX_NESTING as nat);
    law_plain_query(t, a, l, MAX_NESTING as nat);
    law_plain_query(s, l, a, MAX_NESTING as nat);
    law_plain_query(s, a, l, MAX_NESTING as nat);
}

/// The components of two plain types.
pub proof fn lemma_two_parts(t: State, l: u32, a: u32)
    requires
        sound_types(t),
        t.plain(l),
        t.plain(a),
    ensures
        t.flatten_all(seq![l, a], 2) == seq![l, a],
{
    let parts = seq![l, a];
    assert(t.flatten(l, MAX_NESTING as nat) == seq![l]);
    assert(t.flatten(a, MAX_NESTING as nat) == seq![a]);
    assert(t.flatten_all(parts, 0) == Seq::<u32>::empty());
    assert(t.flatten_all(parts, 1) =~= seq![l]);
    assert(t.flatten_all(parts, 2) =~= parts);
}

/// The members where one of two components survives.
proof fn lemma_one_left(t: State, l: u32, a: u32, first: bool)
    ensures
        ({
            let left = crate::subtype_spec::filter_kept(seq![l, a], seq![first, !first], 2);
            let x = if first {
                l
            } else {
                a
            };
            &&& left == seq![x]
            &&& crate::typewalk::dedup(t.sorted(left, 1)) == seq![x]
            &&& t.nest_unions(seq![x], 0, x) == (t, x)
        }),
{
    reveal_with_fuel(crate::subtype_spec::filter_kept, 3);
    let left = crate::subtype_spec::filter_kept(seq![l, a], seq![first, !first], 2);
    let x = if first {
        l
    } else {
        a
    };
    assert(left =~= seq![x]);
    assert(t.sorted(left, 0) == Seq::<u32>::empty());
    assert(t.sorted(left, 1) =~= seq![x]);
}

/// The union of two plain types, where one is below the other.
#[verifier::rlimit(40)]
#[verifier::spinoff_prover]
proof fn lemma_union_two(s: State, l: u32, a: u32, fuel: nat)
    requires
        sound_types(s),
        s.plain(l),
        s.plain(a),
        l != s.builtin(id::BOTTOM),
        a != s.builtin(id::BOTTOM),
        is_below(s, l, a) || is_below(s, a, l),
        8 * s.objs.len() + 11 <= fuel <= MAX_NESTING,
    ensures
        s.union_all(seq![l, a], fuel) == (s, if is_below(s, a, l) {
            l
        } else {
            a
        }),
{
    let parts = seq![l, a];
    let t = s.push_roots(parts);
    lemma_rooted_types(s, t, l, a);
    let f: nat = (fuel - 1) as nat;
    lemma_two_parts(t, l, a);
    lemma_two_survive(t, l, a, f);
    let first = is_below(s, a, l);
    let keep = t.survivors(parts, seq![true, true], 0, f).1;
    assert(keep =~= seq![first, !first]);
    lemma_one_left(t, l, a, first);
    assert(t.pop_roots(2) =~= s);
    assert(Seq::new(2, |i: int| true) =~= seq![true, true]);
    reveal(State::union_all);
    reveal(State::survivors);
}

/// A join is a union, but for the least and the greatest type.
pub proof fn lemma_join_is(s: State, l: u32, a: u32, fuel: nat)
    requires
        fuel > 0,
    ensures
        ({
            let any = s.builtin(id::ANY);
            let bottom = s.builtin(id::BOTTOM);
            s.join(l, a, fuel) == if l == bottom || a == any || l == a {
                (s, a)
            } else if a == bottom || l == any {
                (s, l)
            } else {
                s.union_all(seq![l, a], (fuel - 1) as nat)
            }
        }),
{
    reveal(State::join);
    reveal(State::union_all);
}

/// The join of a bound and a type, where one is below the other: it is the larger one,
/// and nothing changes.
pub proof fn lemma_join(s: State, l: u32, a: u32, fuel: nat)
    requires
        sound_types(s),
        s.plain(l),
        s.plain(a),
        is_below(s, l, a) || is_below(s, a, l),
        8 * s.objs.len() + 12 <= fuel <= MAX_NESTING,
    ensures
        ({
            let (e, j) = s.join(l, a, fuel);
            e == s && (j == l || (j == a && is_below(s, l, a)))
        }),
{
    let any = s.builtin(id::ANY);
    let bottom = s.builtin(id::BOTTOM);
    law_plain_query(s, l, a, MAX_NESTING as nat);
    law_plain_query(s, a, l, MAX_NESTING as nat);
    if !(l == bottom || a == any || l == a) && !(a == bottom || l == any) {
        lemma_union_two(s, l, a, (fuel - 1) as nat);
    }
    lemma_join_is(s, l, a, fuel);
}

/// Whether two environments have the same decisions, and nothing was recorded that a
/// variable's being concrete would follow from.
pub open spec fn quiet(q: Q, q1: Q) -> bool {
    &&& q1.e.l == q.e.l
    &&& q1.e.r == q.e.r
    &&& q1.e.invdepth == q.e.invdepth
    &&& q1.e.vars.len() == q.e.vars.len()
    &&& unmoved(q1.e.vars)
}

/// The environment within a `where` type: its variable, nothing more.
pub open spec fn within(q: Q, v: u32, lb: u32, ub: u32) -> bool {
    &&& q.e.vars.len() == 1
    &&& q.e.vars[0].var == v
    &&& q.e.vars[0].lb == lb
    &&& q.e.vars[0].ub == ub
    &&& q.e.vars[0].existential
    &&& q.e.vars[0].depth0 == 0
    &&& unmoved(q.e.vars)
    &&& q.e.loffset == 0
}

/// A variable whose lower bound is the type at hand takes it.
proof fn lemma_var_lt(q: Q, a: u32, fuel: nat)
    requires
        fuel > 1,
        q.e.vars.len() == 1,
        q.e.vars[0].existential,
        q.e.vars[0].lb == a,
        q.e.loffset == 0,
        unmoved(q.e.vars),
    ensures
        q.var_lt(a, 0, Param::Top, fuel).1,
        quiet(q, q.var_lt(a, 0, Param::Top, fuel).0),
{
    reveal(Q::var_lt);
    reveal(Q::ccheck);
    reveal(State::meet);
    assert(q.record(0, Param::Top) =~= q);
    let f: nat = (fuel - 1) as nat;
    if q.e.vars[0].ub != a {
        assert(q.ccheck(a, a, f).1) by {
            if q.s.is_boxed_long(a) {
                assert(q.longs_equal(a, a));
            }
        }
        assert(q.ccheck(a, a, f).0 == q);
        let (s, m) = q.s.meet(q.e.ub_at(0), a, 1, f);
        let q1 = q.with_state(s).set_ub(0, m);
        assert(q.var_lt(a, 0, Param::Top, fuel) == (q1, true));
    }
}

/// Equality of a variable with a type, step by step.
pub proof fn lemma_equal_var_is(q: Q, v: u32, x: u32, fuel: nat)
    requires
        fuel > 0,
        q.e.vars.len() == 1,
        q.e.vars[0].var == v,
        q.e.vars[0].existential,
    ensures
        ({
            let q0 = q.record(0, Param::Invariant);
            let b = q0.e.vars[0];
            let f = (fuel - 1) as nat;
            let (q1, ok) = q0.ccheck(x, b.ub, f);
            let (s2, j) = q1.s.join(q1.e.lb_at(0), x, f);
            let q2 = q1.with_state(s2).set_lb(0, j);
            let (q3, ok3) = q2.ccheck(q2.e.lb_at(0), x, f);
            q.equal_var(v, x, fuel) == if b.lb == x {
                q0.var_lt(x, 0, Param::Top, f)
            } else if !ok {
                (q1, false)
            } else if q2.e.ub_at(0) == x {
                (q2, true)
            } else if ok3 {
                (q3.set_ub(0, x), true)
            } else {
                (q3, false)
            }
        }),
{
    reveal(Q::equal_var);
    reveal(Q::var_lt);
    reveal(Q::ccheck);
    reveal(State::join);
    assert(q.e.find(v) == Some(0int)) by {
        reveal_with_fuel(crate::env::lookup, 2);
    }
}

/// Equality of a variable with a plain type: it lies between the bounds.
#[verifier::rlimit(40)]
#[verifier::spinoff_prover]
pub proof fn lemma_equal_var(q: Q, v: u32, a: u32, lb: u32, ub: u32, fuel: nat)
    requires
        sound_types(q.s),
        q.s.plain(a),
        q.s.plain(lb),
        q.s.plain(ub),
        within(q, v, lb, ub),
        q.e.invdepth > 0,
        a == lb || a == ub ==> is_below(q.s, lb, ub),
        is_below(q.s, lb, a) || is_below(q.s, a, lb) || !is_below(q.s, a, ub),
        8 * q.s.objs.len() + 15 <= fuel <= MAX_NESTING,
    ensures
        ({
            let (q1, ok) = q.equal_var(v, a, fuel);
            ok == (is_below(q.s, lb, a) && is_below(q.s, a, ub)) && quiet(q, q1)
        }),
{
    let s = q.s;
    let q0 = q.record(0, Param::Invariant);
    let f: nat = (fuel - 1) as nat;
    lemma_equal_var_is(q, v, a, fuel);
    assert(unmoved(q0.e.vars));
    law_plain_query(s, a, a, MAX_NESTING as nat);
    if lb == a {
        lemma_var_lt(q0, a, f);
    } else {
        lemma_ccheck(q0, a, ub, f);
        if is_below(s, a, ub) {
            lemma_join(s, lb, a, f);
            let (s2, j) = s.join(lb, a, f);
            let q2 = q0.with_state(s2).set_lb(0, j);
            assert(unmoved(q2.e.vars));
            lemma_rooted_types(s, q2.s, j, a);
            if ub != a {
                lemma_ccheck(q2, j, a, f);
            }
        }
    }
}

} // verus!
