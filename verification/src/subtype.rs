//! The subtype engine.
//!
//! [`subtype`] decides `a <: b`; the module [`crate::subtype_spec`] says what every
//! step of the walk decides. Every type object that a query allocates stays on the
//! shadow stack while the query can still reach it.

use vstd::prelude::*;
use crate::access;
use crate::access::MAX_NESTING;
use crate::env::{
    at, bounds, deeper, max_count, neg, re_save_vars, restore_vars, save_vars, set_lb, set_ub,
    shallower, Env, EnvV, Param, Q, SavedVars, UnionState, VarBinding,
};
use crate::id;
use crate::intrinsics::add_int;
use crate::region::NULL;
use crate::state::{Runtime, State, Value};
use crate::subtype_spec::{
    all_below, any_alive, clear_cov, cov_counts, filter_kept, fold_cov, kept, stand, SlowV,
    MAX_PASSES,
};
use crate::types;
use crate::typewalk;
use crate::typewalk::VarargKind;
use crate::value;

verus! {

/// The state of the slow nested enumeration.
struct Slow {
    se: SavedVars,
    limited: bool,
    ini_count: u32,
    latest: Option<UnionState>,
    count: u32,
}

impl View for Slow {
    type V = SlowV;

    closed spec fn view(&self) -> SlowV {
        SlowV {
            se: self.se@,
            limited: self.limited,
            ini_count: self.ini_count,
            latest: match self.latest {
                Some(u) => Some(u@),
                None => None,
            },
            count: self.count,
        }
    }
}

/// Lists the covariant counts of all bindings.
fn list_counts(vars: &Vec<VarBinding>) -> (r: Vec<i8>)
    ensures
        r@ == cov_counts(vars@),
{
    let mut r: Vec<i8> = Vec::new();
    let mut i: usize = 0;
    while i < vars.len()
        invariant
            i <= vars.len(),
            r.len() == i,
            forall|k: int| 0 <= k < i ==> r@[k] == vars@[k].occurs_cov,
        decreases vars.len() - i,
    {
        r.push(vars[i].occurs_cov);
        i = i + 1;
    }
    assert(r@ =~= cov_counts(vars@));
    r
}

/// Opens a scope of covariant occurrences.
fn push_scope(e: &mut Env, forall_only: bool) -> (r: Vec<i8>)
    ensures
        r@ == cov_counts(old(e)@.vars),
        final(e)@ == (EnvV { vars: clear_cov(old(e)@.vars, forall_only), ..old(e)@ }),
{
    let r: Vec<i8> = list_counts(&e.vars);
    let ghost v0 = e.vars@;
    let mut i: usize = 0;
    while i < e.vars.len()
        invariant
            i <= e.vars.len(),
            e.vars.len() == v0.len(),
            e@ == (EnvV { vars: e.vars@, ..old(e)@ }),
            forall|k: int| 0 <= k < i ==> e.vars@[k] == clear_cov(v0, forall_only)[k],
            forall|k: int| i <= k < v0.len() ==> e.vars@[k] == v0[k],
        decreases e.vars.len() - i,
    {
        let mut b: VarBinding = e.vars[i];
        if !(forall_only && b.existential) {
            b.occurs_cov = 0;
            e.vars.set(i, b);
        }
        i = i + 1;
    }
    assert(e.vars@ =~= clear_cov(v0, forall_only));
    r
}

/// Closes a scope of covariant occurrences.
fn pop_scope(e: &mut Env, saved: &Vec<i8>, forall_only: bool)
    ensures
        final(e)@ == (EnvV { vars: fold_cov(old(e)@.vars, saved@, forall_only), ..old(e)@ }),
{
    let ghost v0 = e.vars@;
    let mut i: usize = 0;
    while i < e.vars.len() && i < saved.len()
        invariant
            i <= e.vars.len(),
            i <= saved.len(),
            e.vars.len() == v0.len(),
            e@ == (EnvV { vars: e.vars@, ..old(e)@ }),
            forall|k: int| 0 <= k < i ==> e.vars@[k] == fold_cov(v0, saved@, forall_only)[k],
            forall|k: int| i <= k < v0.len() ==> e.vars@[k] == v0[k],
        decreases e.vars.len() - i,
    {
        let mut b: VarBinding = e.vars[i];
        if !(forall_only && b.existential) {
            b.cov_diag = max_count(b.cov_diag, b.occurs_cov);
            b.occurs_cov = saved[i];
            e.vars.set(i, b);
        }
        i = i + 1;
    }
    assert(e.vars@ =~= fold_cov(v0, saved@, forall_only));
}

/// The lower bound of binding `i`.
fn lb_at(e: &Env, i: usize) -> (r: u32)
    ensures
        r == e@.lb_at(i as int),
{
    if i < e.vars.len() {
        e.vars[i].lb
    } else {
        NULL
    }
}

/// The upper bound of binding `i`.
fn ub_at(e: &Env, i: usize) -> (r: u32)
    ensures
        r == e@.ub_at(i as int),
{
    if i < e.vars.len() {
        e.vars[i].ub
    } else {
        NULL
    }
}

/// Marks the variable of binding `i` concrete.
fn mark_concrete(e: &mut Env, i: usize)
    ensures
        final(e)@ == old(e)@.mark_concrete(i as int),
{
    if i < e.vars.len() {
        let mut b: VarBinding = e.vars[i];
        b.concrete = true;
        e.vars.set(i, b);
    }
}

/// Marks the variable of binding `i` an integer.
fn mark_integer(e: &mut Env, i: usize)
    ensures
        final(e)@ == old(e)@.mark_integer(i as int),
{
    if i < e.vars.len() {
        let mut b: VarBinding = e.vars[i];
        b.intvalued = true;
        e.vars.set(i, b);
    }
}

/// Sets the length offset of binding `i`.
fn set_max_offset(e: &mut Env, i: usize, m: i8)
    ensures
        final(e)@ == old(e)@.with_max_offset(i as int, m),
{
    if i < e.vars.len() {
        let mut b: VarBinding = e.vars[i];
        b.max_offset = m;
        e.vars.set(i, b);
    }
}

/// Whether two boxed integers are equal, the left one offset.
fn longs_equal(rt: &Runtime, e: &Env, a: u32, b: u32) -> (r: bool)
    ensures
        r == (Q { s: rt@, e: e@ }).longs_equal(a, b),
{
    value::unbox_int(rt, Value(a)) as i128 == value::unbox_int(rt, Value(b)) as i128
        + e.loffset as i128
}

/// Whether a variable on the right takes a whole ground union on the left.
fn takes_union(rt: &Runtime, e: &Env, y: u32) -> (r: bool)
    ensures
        r == (Q { s: rt@, e: e@ }).takes_union(y),
{
    match e.find(y) {
        Some(i) => !e.vars[i].existential || !typewalk::has_existential_typevar(
            rt,
            e.vars[i].ub,
            e,
        ),
        None => true,
    }
}

/// Whether the variable `x` opens the `where` type `y` at once.
fn opens(rt: &Runtime, e: &Env, x: u32, y: u32) -> (r: bool)
    ensures
        r == (Q { s: rt@, e: e@ }).opens(x, y),
{
    match e.find(x) {
        Some(i) => !e.vars[i].existential && e.vars[i].ub != y,
        None => x != y,
    }
}

/// The binding of a tail's length, if it is a bound variable.
fn length_binding(rt: &Runtime, e: &Env, num: u32) -> (r: Option<usize>)
    ensures
        match r {
            Some(i) => (Q { s: rt@, e: e@ }).length_binding(num) == Some(i as int) && i
                < e.vars.len(),
            None => (Q { s: rt@, e: e@ }).length_binding(num) is None,
        },
{
    if num != NULL && access::is_typevar(rt, num) {
        e.find(num)
    } else {
        None
    }
}

/// Whether `x` is an existential variable.
fn is_existential_typevar(rt: &Runtime, e: &Env, x: u32) -> (r: bool)
    ensures
        r == (Q { s: rt@, e: e@ }).is_existential_typevar(x),
{
    access::is_typevar(rt, x) && e.is_existential(x)
}

/// The nearest supertype of `x`, itself included, with the name `name`.
fn super_named(rt: &Runtime, x: u32, name: u32) -> (r: Option<u32>)
    ensures
        r == rt@.super_named(x, name, MAX_NESTING as nat),
{
    let mut t: u32 = x;
    let mut fuel: u32 = MAX_NESTING;
    loop
        invariant
            rt@.super_named(x, name, MAX_NESTING as nat) == rt@.super_named(
                t,
                name,
                fuel as nat,
            ),
        decreases fuel,
    {
        if access::name_of(rt, t) == name {
            return Some(t);
        }
        let s: u32 = access::supertype(rt, t);
        if fuel == 0 || s == t {
            return None;
        }
        t = s;
        fuel = fuel - 1;
    }
}

/// Decides whether `a <: b`.
pub fn subtype(rt: &mut Runtime, a: u32, b: u32) -> (r: bool)
    ensures
        (final(rt)@, r) == old(rt)@.subtype(a, b, MAX_NESTING as nat),
{
    subtype_at(rt, a, b, MAX_NESTING)
}

/// Decides whether `a <: b`, as far as the fuel allows.
#[verifier::rlimit(100)]
#[verifier::spinoff_prover]
fn subtype_at(rt: &mut Runtime, a: u32, b: u32, fuel: u32) -> (r: bool)
    ensures
        (final(rt)@, r) == old(rt)@.subtype(a, b, fuel as nat),
    decreases fuel, 7nat, 0nat,
{
    proof {
        reveal(State::subtype);
        reveal(Q::forall_exists);
    }
    let roots: Vec<u32> = vec![a, b];
    assert(roots@ =~= seq![a, b]);
    rt.push_roots(&roots);
    let mut e: Env = Env::new();
    let ok: bool = forall_exists_subtype(rt, &mut e, a, b, Param::Top, fuel);
    rt.pop_roots(2);
    ok
}

/// For all combinations of left arms there is one of right arms.
#[verifier::rlimit(100)]
#[verifier::spinoff_prover]
fn forall_exists_subtype(rt: &mut Runtime, e: &mut Env, x: u32, y: u32, param: Param, fuel: u32) -> (r: bool)
    ensures
        (at(*final(rt), *final(e)), r) == at(*old(rt), *old(e)).forall_exists(x, y, param, fuel as nat),
    decreases fuel, 6nat, 0nat,
{
    proof {
        reveal(Q::forall_exists);
        reveal(Q::forall_loop);
    }
    if fuel == 0 {
        return false;
    }
    let mut se: SavedVars = save_vars(rt, e);
    let ghost se0 = se@;
    let n0: usize = se.vars.len();
    e.lunions.used = 0;
    let ok: bool = forall_loop(rt, e, x, y, param, &mut se, fuel - 1);
    release_saved(rt, n0);
    ok
}

/// Releases the shadow-stack slots of a snapshot of `n` bindings.
fn release_saved(rt: &mut Runtime, n: usize)
    ensures
        final(rt)@ == old(rt)@.pop_roots(2 * n),
{
    rt.pop_roots(n);
    rt.pop_roots(n);
    assert(rt@ =~= old(rt)@.pop_roots(2 * n));
}

/// Enumerates the left arms, each with a fresh enumeration of the right arms.
#[verifier::rlimit(100)]
#[verifier::spinoff_prover]
fn forall_loop(
    rt: &mut Runtime,
    e: &mut Env,
    x: u32,
    y: u32,
    param: Param,
    se: &mut SavedVars,
    fuel: u32,
) -> (r: bool)
    ensures
        (at(*final(rt), *final(e)), r) == at(*old(rt), *old(e)).forall_loop(
            x,
            y,
            param,
            old(se)@,
            fuel as nat,
            MAX_PASSES as nat,
        ),
    decreases fuel, 2nat, MAX_PASSES,
{
    proof {
        reveal(Q::forall_loop);
        reveal(Q::exists_loop);
    }
    if fuel == 0 {
        return false;
    }
    let mut n: u64 = MAX_PASSES;
    while n > 0
        invariant
            n <= MAX_PASSES,
            fuel > 0,
            at(*old(rt), *old(e)).forall_loop(
                x,
                y,
                param,
                old(se)@,
                fuel as nat,
                MAX_PASSES as nat,
            ) == at(*rt, *e).forall_loop(x, y, param, se@, fuel as nat, n as nat),
        decreases n,
    {
        proof {
            reveal(Q::forall_loop);
            reveal(Q::exists_loop);
        }
        e.runions.used = 0;
        if !exists_loop(rt, e, x, y, param, se, fuel) {
            return false;
        }
        if !e.next_combination(false) {
            return true;
        }
        re_save_vars(rt, e, se);
        n = n - 1;
    }
    false
}

/// Enumerates the right arms under fixed left arms.
#[verifier::rlimit(100)]
#[verifier::spinoff_prover]
fn exists_loop(
    rt: &mut Runtime,
    e: &mut Env,
    x: u32,
    y: u32,
    param: Param,
    se: &SavedVars,
    fuel: u32,
) -> (r: bool)
    ensures
        (at(*final(rt), *final(e)), r) == at(*old(rt), *old(e)).exists_loop(
            x,
            y,
            param,
            se@,
            fuel as nat,
            MAX_PASSES as nat,
        ),
    decreases fuel, 1nat, MAX_PASSES,
{
    proof {
        reveal(Q::exists_loop);
        reveal(Q::sub);
    }
    if fuel == 0 {
        return false;
    }
    let mut n: u64 = MAX_PASSES;
    while n > 0
        invariant
            n <= MAX_PASSES,
            fuel > 0,
            at(*old(rt), *old(e)).exists_loop(
                x,
                y,
                param,
                se@,
                fuel as nat,
                MAX_PASSES as nat,
            ) == at(*rt, *e).exists_loop(x, y, param, se@, fuel as nat, n as nat),
        decreases n,
    {
        proof {
            reveal(Q::exists_loop);
            reveal(Q::sub);
        }
        e.lunions.rewind();
        e.runions.rewind();
        if self::sub(rt, e, x, y, param, fuel - 1) {
            return true;
        }
        let more: bool = e.next_combination(true);
        restore_vars(rt, e, se);
        if !more {
            return false;
        }
        n = n - 1;
    }
    false
}

/// `x <: y`: the fast paths, and unions on the left.
#[verifier::rlimit(100)]
#[verifier::spinoff_prover]
fn sub(rt: &mut Runtime, e: &mut Env, x: u32, y: u32, param: Param, fuel: u32) -> (r: bool)
    ensures
        (at(*final(rt), *final(e)), r) == at(*old(rt), *old(e)).sub(x, y, param, fuel as nat),
    decreases fuel, 5nat, 0nat,
{
    proof {
        reveal(Q::sub);
        reveal(Q::sub_right);
        reveal(Q::sub_var);
    }
    if x == y && e.loffset == 0 {
        return true;
    }
    if fuel == 0 {
        return false;
    }
    if !access::is_union(rt, x) {
        return sub_right(rt, e, x, y, param, fuel);
    }
    if typewalk::obviously_egal(rt, x, y, MAX_NESTING) {
        return true;
    }
    if e.runions.depth == 0 && access::is_typevar(rt, y) && !typewalk::has_free_typevars(rt, x)
        && takes_union(rt, e, y) {
        return subtype_var(rt, e, y, x, true, param, fuel - 1);
    }
    let x1: u32 = e.pick_element(rt, x, false, MAX_NESTING);
    sub_right(rt, e, x1, y, param, fuel)
}

/// `x <: y`: unions on the right.
#[verifier::rlimit(100)]
#[verifier::spinoff_prover]
fn sub_right(rt: &mut Runtime, e: &mut Env, x: u32, y: u32, param: Param, fuel: u32) -> (r: bool)
    ensures
        (at(*final(rt), *final(e)), r) == at(*old(rt), *old(e)).sub_right(x, y, param, fuel as nat),
    decreases fuel, 4nat, 0nat,
{
    proof {
        reveal(Q::sub_right);
        reveal(Q::sub_vars);
        reveal(Q::sub_unionall);
    }
    if fuel == 0 {
        return false;
    }
    if !access::is_union(rt, y) {
        return sub_vars(rt, e, x, y, param, fuel);
    }
    if typewalk::obviously_in_union(rt, y, x, MAX_NESTING) {
        return true;
    }
    if access::is_unionall(rt, x) {
        return subtype_unionall(rt, e, y, x, false, param, fuel - 1);
    }
    let mut split: bool = true;
    if access::is_typevar(rt, x) {
        if !e.is_existential(x) && !typewalk::has_free_typevars(rt, y) {
            return sub_vars(rt, e, x, y, param, fuel);
        }
        split = e.pick(true);
    }
    if split {
        let y1: u32 = e.pick_element(rt, y, true, MAX_NESTING);
        sub_vars(rt, e, x, y1, param, fuel)
    } else {
        sub_vars(rt, e, x, y, param, fuel)
    }
}

/// `x <: y`: meets on the right, and variables.
#[verifier::rlimit(100)]
#[verifier::spinoff_prover]
fn sub_vars(rt: &mut Runtime, e: &mut Env, x: u32, y: u32, param: Param, fuel: u32) -> (r: bool)
    ensures
        (at(*final(rt), *final(e)), r) == at(*old(rt), *old(e)).sub_vars(x, y, param, fuel as nat),
    decreases fuel, 3nat, 0nat,
{
    proof {
        reveal(Q::sub_vars);
        reveal(Q::sub);
        reveal(Q::sub_ground);
        reveal(Q::sub_unionall);
        reveal(Q::sub_var);
        reveal(Q::two_vars);
    }
    if fuel == 0 {
        return false;
    }
    if access::is_intersect(rt, y) {
        let a: u32 = access::union_a(rt, y);
        if !self::sub(rt, e, x, a, param, fuel - 1) {
            return false;
        }
        let b: u32 = access::union_b(rt, y);
        return self::sub(rt, e, x, b, param, fuel - 1);
    }
    if access::is_typevar(rt, x) {
        if access::is_typevar(rt, y) {
            return subtype_two_vars(rt, e, x, y, param, fuel - 1);
        }
        if access::is_unionall(rt, y) && opens(rt, e, x, y) {
            return subtype_unionall(rt, e, x, y, true, param, fuel - 1);
        }
        return subtype_var(rt, e, x, y, false, param, fuel - 1);
    }
    if access::is_typevar(rt, y) {
        return subtype_var(rt, e, y, x, true, param, fuel - 1);
    }
    sub_ground(rt, e, x, y, param, fuel)
}

/// `x <: y`: neither is a union or a variable.
#[verifier::rlimit(100)]
#[verifier::spinoff_prover]
fn sub_ground(rt: &mut Runtime, e: &mut Env, x: u32, y: u32, param: Param, fuel: u32) -> (r: bool)
    ensures
        (at(*final(rt), *final(e)), r) == at(*old(rt), *old(e)).sub_ground(x, y, param, fuel as nat),
    decreases fuel, 2nat, 0nat,
{
    proof {
        reveal(Q::sub_ground);
        reveal(Q::sub);
        reveal(Q::sub_kind);
        reveal(Q::sub_unionall);
        reveal(Q::sub_datatype);
    }
    if fuel == 0 {
        return false;
    }
    if y == access::builtin(rt, id::ANY) || x == access::builtin(rt, id::BOTTOM) {
        return true;
    }
    if access::is_unionall(rt, x) {
        return subtype_unionall(rt, e, y, x, false, param, fuel - 1);
    }
    if access::is_unionall(rt, y) {
        return subtype_unionall(rt, e, x, y, true, param, fuel - 1);
    }
    if types::is_type_type(rt, x) && !types::is_type_type(rt, y) {
        let t0: u32 = access::svec_ref(rt, access::parameters_of(rt, x), 0);
        let kind: u32 = if access::is_typevar(rt, t0) {
            access::builtin(rt, id::TYPE)
        } else {
            access::tag_of(rt, t0)
        };
        return self::sub(rt, e, kind, y, param, fuel - 1);
    }
    if types::is_type_type(rt, y) && !types::is_type_type(rt, x) {
        let t0: u32 = access::svec_ref(rt, access::parameters_of(rt, y), 0);
        if access::is_typevar(rt, t0) && types::is_kind(rt, x) {
            return sub_kind(rt, e, y, param, fuel - 1);
        }
        return false;
    }
    if access::is_boxed_long(rt, x) || access::is_boxed_long(rt, y) {
        return access::is_boxed_long(rt, x) && access::is_boxed_long(rt, y) && longs_equal(
            rt,
            e,
            x,
            y,
        );
    }
    datatype_subtype(rt, e, x, y, param, fuel - 1)
}

/// A kind below `Type{T}` over a variable: every instance of a kind is a type.
#[verifier::rlimit(100)]
#[verifier::spinoff_prover]
fn sub_kind(rt: &mut Runtime, e: &mut Env, y: u32, param: Param, fuel: u32) -> (r: bool)
    ensures
        (at(*final(rt), *final(e)), r) == at(*old(rt), *old(e)).sub_kind(y, param, fuel as nat),
    decreases fuel, 6nat, 0nat,
{
    proof {
        reveal(Q::sub_kind);
        reveal(Q::sub);
    }
    if fuel == 0 {
        return false;
    }
    let bottom: u32 = access::builtin(rt, id::BOTTOM);
    let any: u32 = access::builtin(rt, id::ANY);
    let v: u32 = types::make_typevar(rt, "T", bottom, any);
    rt.push_root(v);
    let tt: u32 = types::type_type(rt, v);
    rt.push_root(tt);
    let ua: u32 = types::unionall_type(rt, v, tt);
    rt.push_root(ua);
    let ok: bool = self::sub(rt, e, ua, y, param, fuel - 1);
    rt.pop_roots(3);
    ok
}

/// Enters the variable of the `where` type `u` and relates its body to `t`.
#[verifier::rlimit(100)]
#[verifier::spinoff_prover]
fn subtype_unionall(
    rt: &mut Runtime,
    e: &mut Env,
    t: u32,
    u: u32,
    r0: bool,
    param: Param,
    fuel: u32,
) -> (r: bool)
    ensures
        (at(*final(rt), *final(e)), r) == at(*old(rt), *old(e)).sub_unionall(t, u, r0, param, fuel as nat),
    decreases fuel, 6nat, 0nat,
{
    proof {
        reveal(Q::sub_unionall);
        reveal(Q::sub);
        reveal(State::widen);
    }
    if fuel == 0 {
        return false;
    }
    let var: u32 = access::unionall_var(rt, u);
    let body: u32 = access::unionall_body(rt, u);
    let lb: u32 = access::tvar_lb(rt, var);
    let ub: u32 = access::tvar_ub(rt, var);
    let idx: usize = e.vars.len();
    let b: VarBinding = VarBinding {
        var,
        lb,
        ub,
        existential: r0,
        occurs_cov: 0,
        cov_diag: 0,
        occurs_inv: 0,
        body_occurs_inv: typewalk::var_occurs_invariant(rt, body, var, false, MAX_NESTING),
        depth0: e.invdepth,
        intvalued: false,
        concrete: false,
        max_offset: 0,
        root_base: rt.roots.len(),
    };
    let mirror: Vec<u32> = vec![lb, ub];
    assert(mirror@ =~= seq![lb, ub]);
    rt.push_roots(&mirror);
    e.vars.push(b);
    let ok: bool = if r0 {
        self::sub(rt, e, t, body, param, fuel - 1)
    } else {
        self::sub(rt, e, body, t, param, fuel - 1)
    };
    let ok2: bool = diagonal(rt, e, idx, var, ok);
    if ok2 {
        let ub2: u32 = ub_at(e, idx);
        if access::is_intersect(rt, ub2) {
            let w: u32 = widen_intersect(rt, ub2, fuel - 1);
            set_ub(rt, e, idx, w);
        }
    }
    if e.vars.len() > 0 {
        let ghost v1 = e.vars@;
        let last: Option<VarBinding> = e.vars.pop();
        assert(e.vars@ =~= v1.drop_last());
    }
    rt.pop_roots(2);
    ok2
}

/// The diagonal rule for binding `idx` of the variable `var`.
fn diagonal(rt: &Runtime, e: &mut Env, idx: usize, var: u32, ok: bool) -> (r: bool)
    ensures
        ((Q { s: rt@, e: final(e)@ }), r) == (Q { s: rt@, e: old(e)@ }).diagonal(
            idx as int,
            var,
            ok,
        ),
{
    if idx >= e.vars.len() || !ok {
        return ok;
    }
    let b: VarBinding = e.vars[idx];
    let diag: bool = max_count(b.occurs_cov, b.cov_diag) > 1 && !b.body_occurs_inv;
    if !(b.concrete || (diag && typewalk::is_leaf_typevar(rt, var))) {
        return true;
    }
    if b.concrete && !diag && !typewalk::is_leaf_bound(rt, b.ub, MAX_NESTING) {
        return false;
    }
    if access::is_typevar(rt, b.lb) {
        match e.find(b.lb) {
            Some(j) => mark_concrete(e, j),
            None => (),
        }
        return true;
    }
    typewalk::is_leaf_bound(rt, b.lb, MAX_NESTING)
}

/// Relates the variable `b` to the type `a`: `a <: b` if `r0`, else `b <: a`.
#[verifier::rlimit(100)]
#[verifier::spinoff_prover]
fn subtype_var(rt: &mut Runtime, e: &mut Env, b: u32, a: u32, r0: bool, param: Param, fuel: u32) -> (r: bool)
    ensures
        (at(*final(rt), *final(e)), r) == at(*old(rt), *old(e)).sub_var(b, a, r0, param, fuel as nat),
    decreases fuel, 6nat, 0nat,
{
    proof {
        reveal(Q::sub_var);
        reveal(Q::sub);
        reveal(Q::var_lt);
        reveal(Q::var_gt);
    }
    if fuel == 0 {
        return false;
    }
    if e.loffset != 0 && access::is_boxed_long(rt, a) {
        let k: i32 = if r0 {
            neg(e.loffset)
        } else {
            e.loffset
        };
        let n: i64 = add_int(value::unbox_int(rt, Value(a)), k as i64);
        let na: u32 = value::box_int(rt, n).0;
        rt.push_root(na);
        e.loffset = 0;
        let ok: bool = subtype_var(rt, e, b, na, r0, param, fuel - 1);
        e.loffset = if r0 {
            neg(k)
        } else {
            k
        };
        rt.pop_roots(1);
        return ok;
    }
    match e.find(b) {
        Some(i) => if r0 {
            var_gt(rt, e, a, i, param, fuel - 1)
        } else {
            var_lt(rt, e, a, i, param, fuel - 1)
        },
        None => if r0 {
            let lb: u32 = access::tvar_lb(rt, b);
            self::sub(rt, e, a, lb, param, fuel - 1)
        } else {
            let ub: u32 = access::tvar_ub(rt, b);
            self::sub(rt, e, ub, a, param, fuel - 1)
        },
    }
}

/// `x <: y` where one side is the expanded bound of a universal variable.
#[verifier::rlimit(100)]
#[verifier::spinoff_prover]
fn subtype_left_var(rt: &mut Runtime, e: &mut Env, x: u32, y: u32, param: Param, fuel: u32) -> (r: bool)
    ensures
        (at(*final(rt), *final(e)), r) == at(*old(rt), *old(e)).sub_left_var(x, y, param, fuel as nat),
    decreases fuel, 6nat, 0nat,
{
    proof {
        reveal(Q::sub_left_var);
        reveal(Q::sub);
    }
    if fuel == 0 {
        return false;
    }
    if access::is_boxed_long(rt, x) && access::is_boxed_long(rt, y) {
        return longs_equal(rt, e, x, y);
    }
    if x == y && !access::is_unionall(rt, y) {
        return true;
    }
    if x == access::builtin(rt, id::BOTTOM) || y == access::builtin(rt, id::ANY) {
        return true;
    }
    if access::is_union(rt, x) && typewalk::obviously_egal(rt, x, y, MAX_NESTING) {
        return true;
    }
    if x == access::builtin(rt, id::ANY) && access::is_datatype(rt, y) {
        return false;
    }
    self::sub(rt, e, x, y, param, fuel - 1)
}

/// Whether a nonzero length offset keeps a variable from absorbing `a`.
fn offset_blocks(rt: &Runtime, e: &Env, a: u32) -> (r: bool)
    ensures
        r == (Q { s: rt@, e: e@ }).offset_blocks(a),
{
    e.loffset != 0 && !access::is_typevar(rt, a) && a != access::builtin(rt, id::BOTTOM) && a
        != access::builtin(rt, id::ANY)
}

/// Compares an expanded bound in its own scope of occurrences.
#[verifier::rlimit(100)]
#[verifier::spinoff_prover]
fn in_forall_scope(rt: &mut Runtime, e: &mut Env, x: u32, y: u32, param: Param, fuel: u32) -> (r: bool)
    ensures
        (at(*final(rt), *final(e)), r) == at(*old(rt), *old(e)).in_forall_scope(x, y, param, fuel as nat),
    decreases fuel, 6nat, 0nat,
{
    proof {
        reveal(Q::in_forall_scope);
        reveal(Q::sub_left_var);
    }
    if fuel == 0 {
        return false;
    }
    let saved: Vec<i8> = push_scope(e, true);
    let ok: bool = subtype_left_var(rt, e, x, y, param, fuel - 1);
    pop_scope(e, &saved, true);
    ok
}

/// Constrains the variable of binding `idx` from above by `a`.
#[verifier::rlimit(100)]
#[verifier::spinoff_prover]
fn var_lt(rt: &mut Runtime, e: &mut Env, a: u32, idx: usize, param: Param, fuel: u32) -> (r: bool)
    ensures
        (at(*final(rt), *final(e)), r) == at(*old(rt), *old(e)).var_lt(a, idx as int, param, fuel as nat),
    decreases fuel, 6nat, 0nat,
{
    proof {
        reveal(Q::var_lt);
        reveal(Q::in_forall_scope);
        reveal(Q::ccheck);
        reveal(State::meet);
    }
    if fuel == 0 {
        return false;
    }
    if idx >= e.vars.len() {
        return false;
    }
    e.record(idx, param);
    let b: VarBinding = e.vars[idx];
    if offset_blocks(rt, e, a) {
        return false;
    }
    if !b.existential {
        return in_forall_scope(rt, e, b.ub, a, param, fuel - 1);
    }
    if b.ub == a {
        return true;
    }
    if !ccheck(rt, e, b.lb, a, fuel - 1) {
        return false;
    }
    let ub: u32 = ub_at(e, idx);
    let m: u32 = simple_meet(rt, ub, a, 1, fuel - 1);
    set_ub(rt, e, idx, m);
    true
}

/// Constrains the variable of binding `idx` from below by `a`.
#[verifier::rlimit(100)]
#[verifier::spinoff_prover]
fn var_gt(rt: &mut Runtime, e: &mut Env, a: u32, idx: usize, param: Param, fuel: u32) -> (r: bool)
    ensures
        (at(*final(rt), *final(e)), r) == at(*old(rt), *old(e)).var_gt(a, idx as int, param, fuel as nat),
    decreases fuel, 6nat, 0nat,
{
    proof {
        reveal(Q::var_gt);
        reveal(Q::in_forall_scope);
        reveal(Q::ccheck);
        reveal(State::join);
    }
    if fuel == 0 {
        return false;
    }
    if idx >= e.vars.len() {
        return false;
    }
    e.record(idx, param);
    let b: VarBinding = e.vars[idx];
    if offset_blocks(rt, e, a) {
        return false;
    }
    if !b.existential {
        return in_forall_scope(rt, e, a, b.lb, param, fuel - 1);
    }
    if b.lb == a {
        return true;
    }
    if !ccheck(rt, e, a, b.ub, fuel - 1) {
        return false;
    }
    let lb: u32 = lb_at(e, idx);
    let j: u32 = simple_join(rt, lb, a, fuel - 1);
    set_lb(rt, e, idx, j);
    true
}

/// Checks that bounds are consistent, in a scope of occurrences of its own.
#[verifier::rlimit(100)]
#[verifier::spinoff_prover]
fn ccheck(rt: &mut Runtime, e: &mut Env, a: u32, b: u32, fuel: u32) -> (r: bool)
    ensures
        (at(*final(rt), *final(e)), r) == at(*old(rt), *old(e)).ccheck(a, b, fuel as nat),
    decreases fuel, 6nat, 0nat,
{
    proof {
        reveal(Q::ccheck);
        reveal(Q::local);
    }
    if fuel == 0 {
        return false;
    }
    if access::is_boxed_long(rt, a) && access::is_boxed_long(rt, b) {
        return longs_equal(rt, e, a, b);
    }
    if a == b || a == access::builtin(rt, id::BOTTOM) || b == access::builtin(rt, id::ANY) {
        return true;
    }
    if a == access::builtin(rt, id::ANY) && access::is_datatype(rt, b) {
        return false;
    }
    if typewalk::obviously_in_union(rt, b, a, MAX_NESTING) {
        return true;
    }
    let old_l: UnionState = e.lunions.save();
    let saved: Vec<i8> = push_scope(e, false);
    let ok: bool = local_forall_exists_subtype(rt, e, a, b, Param::Top, 1, fuel - 1);
    pop_scope(e, &saved, false);
    e.lunions.restore(&old_l);
    ok
}

/// `x <: y` for two variables.
#[verifier::rlimit(100)]
#[verifier::spinoff_prover]
fn subtype_two_vars(rt: &mut Runtime, e: &mut Env, x: u32, y: u32, param: Param, fuel: u32) -> (r: bool)
    ensures
        (at(*final(rt), *final(e)), r) == at(*old(rt), *old(e)).two_vars(x, y, param, fuel as nat),
    decreases fuel, 6nat, 0nat,
{
    proof {
        reveal(Q::two_vars);
        reveal(Q::sub);
        reveal(Q::var_lt);
        reveal(Q::var_gt);
    }
    if fuel == 0 {
        return false;
    }
    if x == y {
        return true;
    }
    let xi: Option<usize> = e.find(x);
    let yi: Option<usize> = e.find(y);
    let xr: bool = e.is_existential(x);
    let yr: bool = e.is_existential(y);
    match (xi, yi) {
        (None, None) => false,
        (Some(i), None) => if xr {
            var_lt(rt, e, y, i, param, fuel - 1)
        } else {
            let xub: u32 = e.vars[i].ub;
            let ylb: u32 = access::tvar_lb(rt, y);
            self::sub(rt, e, xub, y, param, fuel - 1) || self::sub(rt, e, x, ylb, param, fuel - 1)
        },
        (None, Some(j)) => if yr {
            var_gt(rt, e, x, j, param, fuel - 1)
        } else {
            let xub: u32 = access::tvar_ub(rt, x);
            let ylb: u32 = e.vars[j].lb;
            self::sub(rt, e, xub, y, param, fuel - 1) || self::sub(rt, e, x, ylb, param, fuel - 1)
        },
        (Some(i), Some(j)) => if xr {
            if yr && i < j {
                e.record(i, param);
                var_gt(rt, e, x, j, param, fuel - 1)
            } else {
                e.record(j, param);
                var_lt(rt, e, y, i, param, fuel - 1)
            }
        } else if yr {
            e.record(i, param);
            if e.vars[j].depth0 < e.vars[i].depth0 {
                let xub: u32 = e.vars[i].ub;
                var_gt(rt, e, xub, j, param, fuel - 1)
            } else {
                var_gt(rt, e, x, j, param, fuel - 1)
            }
        } else {
            let xub: u32 = e.vars[i].ub;
            let ylb: u32 = e.vars[j].lb;
            self::sub(rt, e, xub, y, param, fuel - 1) || self::sub(rt, e, x, ylb, param, fuel - 1)
        },
    }
}

/// Equates the length `n` with the length of the tuple tail `v`.
#[verifier::rlimit(100)]
#[verifier::spinoff_prover]
fn check_vararg_length(rt: &mut Runtime, e: &mut Env, v: u32, n: i64, fuel: u32) -> (r: bool)
    ensures
        (at(*final(rt), *final(e)), r) == at(*old(rt), *old(e)).check_length(v, n, fuel as nat),
    decreases fuel, 6nat, 0nat,
{
    proof {
        reveal(Q::check_length);
        reveal(Q::sub);
    }
    if fuel == 0 {
        return false;
    }
    let num: u32 = access::vararg_num(rt, v);
    if num == NULL {
        return true;
    }
    let boxed: u32 = value::box_int(rt, n).0;
    rt.push_root(boxed);
    e.invdepth = deeper(e.invdepth);
    let mut ok: bool = self::sub(rt, e, boxed, num, Param::Invariant, fuel - 1);
    if ok {
        ok = self::sub(rt, e, num, boxed, Param::Top, fuel - 1);
    }
    e.invdepth = shallower(e.invdepth);
    rt.pop_roots(1);
    ok
}

/// `x <: y` for data types.
#[verifier::rlimit(100)]
#[verifier::spinoff_prover]
fn datatype_subtype(rt: &mut Runtime, e: &mut Env, x: u32, y: u32, param: Param, fuel: u32) -> (r: bool)
    ensures
        (at(*final(rt), *final(e)), r) == at(*old(rt), *old(e)).sub_datatype(x, y, param, fuel as nat),
    decreases fuel, 6nat, 0nat,
{
    proof {
        reveal(Q::sub_datatype);
        reveal(Q::params_equal);
        reveal(Q::sub_tuple);
    }
    if fuel == 0 {
        return false;
    }
    if x == y || y == access::builtin(rt, id::ANY) {
        return true;
    }
    let xd: u32 = match super_named(rt, x, access::name_of(rt, y)) {
        Some(t) => t,
        None => {
            return false;
        },
    };
    if access::is_tuple(rt, xd) {
        let p: Param = if param == Param::Top {
            Param::Covariant
        } else {
            param
        };
        return tuple_subtype(rt, e, xd, y, p, fuel - 1);
    }
    let px: u32 = access::parameters_of(rt, xd);
    let py: u32 = access::parameters_of(rt, y);
    if px == NULL || py == NULL {
        return true;
    }
    let n: u32 = access::svec_len(rt, px);
    e.invdepth = deeper(e.invdepth);
    let ok: bool = params_equal(rt, e, px, py, n, fuel - 1);
    e.invdepth = shallower(e.invdepth);
    ok
}

/// Equality of `n` invariant parameters.
#[verifier::rlimit(100)]
#[verifier::spinoff_prover]
fn params_equal(rt: &mut Runtime, e: &mut Env, px: u32, py: u32, n: u32, fuel: u32) -> (r: bool)
    ensures
        (at(*final(rt), *final(e)), r) == at(*old(rt), *old(e)).params_equal(
            px,
            py,
            n as nat,
            n as nat,
            fuel as nat,
        ),
    decreases fuel, 1nat, n,
{
    proof {
        reveal(Q::params_equal);
        reveal(Q::equal);
    }
    if fuel == 0 {
        return false;
    }
    let mut k: u32 = n;
    while k > 0
        invariant
            k <= n,
            fuel > 0,
            at(*old(rt), *old(e)).params_equal(px, py, n as nat, n as nat, fuel as nat) == at(
                *rt,
                *e,
            ).params_equal(px, py, n as nat, k as nat, fuel as nat),
        decreases k,
    {
        proof {
            reveal(Q::params_equal);
            reveal(Q::equal);
        }
        let xi: u32 = access::svec_ref(rt, px, n - k);
        let yi: u32 = access::svec_ref(rt, py, n - k);
        if xi != yi && !forall_exists_equal(rt, e, xi, yi, fuel - 1) {
            return false;
        }
        k = k - 1;
    }
    true
}

/// The number of elements of a simple vector, none where it is null.
fn count(rt: &Runtime, p: u32) -> (r: u32)
    ensures
        r == rt@.svec_seq(p).len(),
{
    if p == NULL {
        0
    } else {
        access::svec_len(rt, p)
    }
}

/// `x <: y` for tuple types.
#[verifier::rlimit(100)]
#[verifier::spinoff_prover]
fn tuple_subtype(rt: &mut Runtime, e: &mut Env, x: u32, y: u32, param: Param, fuel: u32) -> (r: bool)
    ensures
        (at(*final(rt), *final(e)), r) == at(*old(rt), *old(e)).sub_tuple(x, y, param, fuel as nat),
    decreases fuel, 6nat, 0nat,
{
    proof {
        reveal(Q::sub_tuple);
        reveal(Q::check_length);
        reveal(Q::sub_tail);
    }
    if fuel == 0 {
        return false;
    }
    let px: u32 = access::parameters_of(rt, x);
    let py: u32 = access::parameters_of(rt, y);
    let lx: u32 = count(rt, px);
    let ly: u32 = count(rt, py);
    if lx == 0 && ly == 0 {
        return true;
    }
    let mut xva: u32 = NULL;
    let mut yva: u32 = NULL;
    let mut kx: VarargKind = VarargKind::Fixed;
    let mut ky: VarargKind = VarargKind::Fixed;
    if lx > 0 {
        xva = access::svec_ref(rt, px, lx - 1);
        kx = typewalk::vararg_kind(rt, xva);
    }
    if ly > 0 {
        yva = access::svec_ref(rt, py, ly - 1);
        ky = typewalk::vararg_kind(rt, yva);
    }
    let xb: Option<usize> = if kx == VarargKind::Bound {
        e.find(access::vararg_num(rt, xva))
    } else {
        None
    };
    let pinned: bool = match xb {
        Some(i) => access::is_boxed_long(rt, e.vars[i].lb),
        None => false,
    };
    let universal: bool = match xb {
        Some(i) => !e.vars[i].existential,
        None => false,
    };
    let y_fixed: bool = ky == VarargKind::Fixed || ky == VarargKind::Int;
    if kx != VarargKind::Fixed && kx != VarargKind::Int && !pinned {
        if kx == VarargKind::Unbound || universal {
            if y_fixed || lx < ly {
                return false;
            }
        } else if ky == VarargKind::Fixed {
            if !check_vararg_length(rt, e, xva, ly as i64 + 1 - lx as i64, fuel - 1) {
                return false;
            }
        }
    } else {
        let mut nx: i128 = lx as i128;
        if kx == VarargKind::Int {
            nx = nx + value::unbox_int(rt, Value(access::vararg_num(rt, xva))) as i128 - 1;
        } else {
            match xb {
                Some(i) => {
                    nx = nx + value::unbox_int(rt, Value(e.vars[i].lb)) as i128 - 1;
                },
                None => (),
            }
        }
        let mut ny: i128 = ly as i128;
        if ky == VarargKind::Int {
            ny = ny + value::unbox_int(rt, Value(access::vararg_num(rt, yva))) as i128 - 1;
        } else if ky != VarargKind::Fixed {
            ny = ny - 1;
        }
        if (y_fixed && nx != ny) || (!y_fixed && ny > nx) {
            return false;
        }
    }
    subtype_tuple_tail(rt, e, px, py, lx, ly, param, fuel - 1)
}

/// The elementwise walk of two tuples.
#[verifier::rlimit(100)]
#[verifier::spinoff_prover]
fn subtype_tuple_tail(
    rt: &mut Runtime,
    e: &mut Env,
    px: u32,
    py: u32,
    lx: u32,
    ly: u32,
    param: Param,
    fuel: u32,
) -> (r: bool)
    ensures
        (at(*final(rt), *final(e)), r) == at(*old(rt), *old(e)).sub_tail_start(
            px,
            py,
            lx as int,
            ly as int,
            param,
            fuel as nat,
        ),
    decreases fuel, 2nat, 0nat,
{
    proof {
        reveal(Q::sub_tail);
        reveal(Q::sub);
        reveal(Q::sub_tail_end);
        reveal(Q::sub_varargs);
    }
    if fuel == 0 {
        return false;
    }
    let mut i: u32 = 0;
    let mut j: u32 = 0;
    let mut vx: i64 = 0;
    let mut vy: i64 = 0;
    let mut xi: u32 = NULL;
    let mut yi: u32 = NULL;
    let ghost mut steps: int = 0;
    loop
        invariant
            fuel > 0,
            i <= lx,
            j <= ly,
            0 <= vx <= steps,
            0 <= vy <= steps,
            steps <= i + j,
            at(*old(rt), *old(e)).sub_tail_start(
                px,
                py,
                lx as int,
                ly as int,
                param,
                fuel as nat,
            ) == at(*rt, *e).sub_tail(
                px,
                py,
                lx as int,
                ly as int,
                i as int,
                j as int,
                vx as nat,
                vy as nat,
                xi,
                yi,
                param,
                fuel as nat,
            ),
        decreases (lx - i) + (ly - j),
    {
        proof {
            reveal(Q::sub_tail);
            reveal(Q::sub);
            reveal(Q::sub_tail_end);
            reveal(Q::sub_varargs);
            steps = steps + 1;
        }
        if i < lx {
            xi = access::svec_ref(rt, px, i);
            if i == lx - 1 && (vx > 0 || access::is_vararg(rt, xi)) {
                vx = vx + 1;
            }
        }
        if j < ly {
            yi = access::svec_ref(rt, py, j);
            if j == ly - 1 && (vy > 0 || access::is_vararg(rt, yi)) {
                vy = vy + 1;
            }
        }
        if i >= lx {
            return tail_end(rt, e, lx, ly, vx, vy, yi, fuel - 1);
        }
        if vx > 0 && vy > 0 {
            return subtype_tuple_varargs(rt, e, xi, yi, vx, vy, param, fuel - 1);
        }
        if vy == 1 && access::vararg_elem(rt, yi) == access::builtin(rt, id::ANY) {
            let xlast: u32 = access::svec_ref(rt, px, lx - 1);
            if access::is_vararg(rt, xlast) {
                let skipped: i64 = (lx - i - 1) as i64;
                return subtype_tuple_varargs(rt, e, xlast, yi, 1, vy + skipped, param, fuel - 1);
            }
            return tail_end(rt, e, lx, ly, vx, vy, yi, fuel - 1);
        }
        if j >= ly {
            return vx > 0;
        }
        let xe: u32 = if vx > 0 {
            access::vararg_elem(rt, xi)
        } else {
            xi
        };
        let ye: u32 = if vy > 0 {
            access::vararg_elem(rt, yi)
        } else {
            yi
        };
        if !self::sub(rt, e, xe, ye, param, fuel - 1) {
            return false;
        }
        if i < lx - 1 || vx == 0 {
            i = i + 1;
        }
        if j < ly - 1 || vy == 0 {
            j = j + 1;
        }
    }
}

/// The end of the elementwise walk: a pending tail takes what is left.
#[verifier::rlimit(100)]
#[verifier::spinoff_prover]
fn tail_end(rt: &mut Runtime, e: &mut Env, lx: u32, ly: u32, vx: i64, vy: i64, yi: u32, fuel: u32) -> (r: bool)
    ensures
        (at(*final(rt), *final(e)), r) == at(*old(rt), *old(e)).sub_tail_end(
            lx as int,
            ly as int,
            vx as int,
            vy as int,
            yi,
            fuel as nat,
        ),
    decreases fuel, 6nat, 0nat,
{
    proof {
        reveal(Q::sub_tail_end);
        reveal(Q::check_length);
    }
    if fuel == 0 {
        return false;
    }
    if vy > 0 && vx == 0 && lx as i64 + 1 >= ly as i64 {
        check_vararg_length(rt, e, yi, lx as i64 + 1 - ly as i64, fuel - 1)
    } else {
        true
    }
}

/// `Vararg{S,N} <: Vararg{T,M}` after `vx` and `vy` elements were consumed.
#[verifier::rlimit(100)]
#[verifier::spinoff_prover]
fn subtype_tuple_varargs(
    rt: &mut Runtime,
    e: &mut Env,
    vtx: u32,
    vty: u32,
    vx: i64,
    vy: i64,
    param: Param,
    fuel: u32,
) -> (r: bool)
    requires
        0 <= vx <= 0x4_0000_0000,
        0 <= vy <= 0x4_0000_0000,
    ensures
        (at(*final(rt), *final(e)), r) == at(*old(rt), *old(e)).sub_varargs(
            vtx,
            vty,
            vx as int,
            vy as int,
            param,
            fuel as nat,
        ),
    decreases fuel, 6nat, 0nat,
{
    proof {
        reveal(Q::sub_varargs);
        reveal(Q::sub);
        reveal(Q::equate_lengths);
    }
    if fuel == 0 {
        return false;
    }
    let xp0: u32 = access::vararg_elem(rt, vtx);
    let xp1: u32 = access::vararg_num(rt, vtx);
    let yp0: u32 = access::vararg_elem(rt, vty);
    let yp1: u32 = access::vararg_num(rt, vty);
    let xlv: Option<usize> = length_binding(rt, e, xp1);
    let ylv: Option<usize> = length_binding(rt, e, yp1);
    let mut mx: i8 = 0;
    let mut my: i8 = 0;
    let mut xl: u32 = xp1;
    let mut yl: u32 = yp1;
    match xlv {
        Some(i) => {
            mx = e.vars[i].max_offset;
            xl = e.vars[i].lb;
        },
        None => (),
    }
    match ylv {
        Some(i) => {
            my = e.vars[i].max_offset;
            yl = e.vars[i].lb;
        },
        None => (),
    }
    let exhausted: bool = xp1 != NULL && access::is_boxed_long(rt, xl) && value::unbox_int(
        rt,
        Value(xl),
    ) as i128 + 1 == vx as i128;
    let y_long: bool = yl != NULL && access::is_boxed_long(rt, yl);
    if xp1 == NULL && y_long {
        return false;
    }
    if exhausted && y_long {
        return value::unbox_int(rt, Value(yl)) as i128 + 1 == vy as i128;
    }
    if !(exhausted && yl == NULL) {
        if !self::sub(rt, e, xp0, yp0, param, fuel - 1) {
            return false;
        }
        if !self::sub(rt, e, xp0, yp0, Param::Covariant, fuel - 1) {
            return false;
        }
    }
    equate_lengths(rt, e, xp1, yp1, vx, vy, xlv, ylv, mx, my, fuel - 1)
}

/// The picture of an index.
spec fn position(i: Option<usize>) -> Option<int> {
    match i {
        Some(k) => Some(k as int),
        None => None,
    }
}

/// The length equation of two tails.
#[verifier::rlimit(100)]
#[verifier::spinoff_prover]
fn equate_lengths(
    rt: &mut Runtime,
    e: &mut Env,
    xp1: u32,
    yp1: u32,
    vx: i64,
    vy: i64,
    xlv: Option<usize>,
    ylv: Option<usize>,
    mx: i8,
    my: i8,
    fuel: u32,
) -> (r: bool)
    requires
        0 <= vx <= 0x4_0000_0000,
        0 <= vy <= 0x4_0000_0000,
    ensures
        (at(*final(rt), *final(e)), r) == at(*old(rt), *old(e)).equate_lengths(
            xp1,
            yp1,
            vx as int,
            vy as int,
            position(xlv),
            position(ylv),
            mx,
            my,
            fuel as nat,
        ),
    decreases fuel, 6nat, 0nat,
{
    proof {
        reveal(Q::equate_lengths);
        reveal(Q::free_length);
        reveal(Q::equate_offsets);
    }
    if fuel == 0 {
        return false;
    }
    if yp1 == NULL {
        return true;
    }
    if xp1 == NULL {
        return free_length(rt, e, yp1, my, fuel - 1);
    }
    e.invdepth = deeper(e.invdepth);
    let bx: Option<usize> = if access::is_typevar(rt, xp1) {
        e.find(xp1)
    } else {
        None
    };
    let by: Option<usize> = if access::is_typevar(rt, yp1) {
        e.find(yp1)
    } else {
        None
    };
    let mut xn: u32 = xp1;
    let mut yn: u32 = yp1;
    match bx {
        Some(i) => {
            mark_integer(e, i);
            let lb: u32 = lb_at(e, i);
            if access::is_boxed_long(rt, lb) {
                xn = lb;
            }
        },
        None => (),
    }
    match by {
        Some(i) => {
            mark_integer(e, i);
            let lb: u32 = lb_at(e, i);
            if access::is_boxed_long(rt, lb) {
                yn = lb;
            }
        },
        None => (),
    }
    let ok: bool = if access::is_boxed_long(rt, xn) && access::is_boxed_long(rt, yn) {
        value::unbox_int(rt, Value(xn)) as i128 - vx as i128 == value::unbox_int(
            rt,
            Value(yn),
        ) as i128 - vy as i128
    } else {
        equate_offsets(rt, e, xn, yn, vx, vy, fuel - 1)
    };
    match ylv {
        Some(i) => set_max_offset(e, i, my),
        None => (),
    }
    match xlv {
        Some(i) => set_max_offset(e, i, mx),
        None => (),
    }
    e.invdepth = shallower(e.invdepth);
    ok
}

/// An unconstrained length on the left against the length `yp1`.
#[verifier::rlimit(100)]
#[verifier::spinoff_prover]
fn free_length(rt: &mut Runtime, e: &mut Env, yp1: u32, my: i8, fuel: u32) -> (r: bool)
    ensures
        (at(*final(rt), *final(e)), r) == at(*old(rt), *old(e)).free_length(yp1, my, fuel as nat),
    decreases fuel, 6nat, 0nat,
{
    proof {
        reveal(Q::free_length);
        reveal(Q::sub);
    }
    if fuel == 0 {
        return false;
    }
    let b: Option<usize> = if access::is_typevar(rt, yp1) {
        e.find(yp1)
    } else {
        None
    };
    let mut yl: u32 = yp1;
    match b {
        Some(i) => {
            yl = e.vars[i].lb;
        },
        None => (),
    }
    if access::is_boxed_long(rt, yl) {
        return false;
    }
    match b {
        Some(i) => {
            let v: VarBinding = e.vars[i];
            if v.depth0 != e.invdepth || v.lb != access::builtin(rt, id::BOTTOM) || v.ub
                != access::builtin(rt, id::ANY) {
                return false;
            }
            mark_integer(e, i);
        },
        None => (),
    }
    e.invdepth = deeper(e.invdepth);
    let any: u32 = access::builtin(rt, id::ANY);
    let ok: bool = self::sub(rt, e, any, yp1, Param::Invariant, fuel - 1);
    match b {
        Some(i) => set_max_offset(e, i, my),
        None => (),
    }
    e.invdepth = shallower(e.invdepth);
    ok
}

/// The length equation of two tails that are not both ground.
#[verifier::rlimit(100)]
#[verifier::spinoff_prover]
fn equate_offsets(rt: &mut Runtime, e: &mut Env, xn: u32, yn: u32, vx: i64, vy: i64, fuel: u32) -> (r: bool)
    requires
        0 <= vx <= 0x4_0000_0000,
        0 <= vy <= 0x4_0000_0000,
    ensures
        (at(*final(rt), *final(e)), r) == at(*old(rt), *old(e)).equate_offsets(
            xn,
            yn,
            vx as int,
            vy as int,
            fuel as nat,
        ),
    decreases fuel, 6nat, 0nat,
{
    proof {
        reveal(Q::equate_offsets);
        reveal(Q::equal);
    }
    if fuel == 0 {
        return false;
    }
    let ghost q0 = at(*rt, *e);
    let left: bool = access::is_boxed_long(rt, xn);
    if vx != vy && (left || access::is_boxed_long(rt, yn)) {
        let n: i64 = if left {
            add_int(value::unbox_int(rt, Value(xn)), vy - vx)
        } else {
            add_int(value::unbox_int(rt, Value(yn)), vx - vy)
        };
        let ghost s1 = q0.s.box_int(n).0;
        let b: u32 = value::box_int(rt, n).0;
        rt.push_root(b);
        e.loffset = 0;
        assert(at(*rt, *e) == Q { s: s1.push_root(b), e: q0.e.with_loffset(0) });
        let ok: bool = if left {
            forall_exists_equal(rt, e, b, yn, fuel - 1)
        } else {
            forall_exists_equal(rt, e, xn, b, fuel - 1)
        };
        e.loffset = 0;
        rt.pop_roots(1);
        return ok;
    }
    let d: i64 = vx - vy;
    e.loffset = if -0x8000_0000 <= d && d <= 0x7fff_ffff {
        d as i32
    } else {
        0
    };
    assert(at(*rt, *e) == q0.with_env(q0.e.with_loffset(e.loffset)));
    let ok: bool = forall_exists_equal(rt, e, xn, yn, fuel - 1);
    e.loffset = 0;
    ok
}

/// Invariant equality of two type parameters.
#[verifier::rlimit(100)]
#[verifier::spinoff_prover]
fn forall_exists_equal(rt: &mut Runtime, e: &mut Env, x: u32, y: u32, fuel: u32) -> (r: bool)
    ensures
        (at(*final(rt), *final(e)), r) == at(*old(rt), *old(e)).equal(x, y, fuel as nat),
    decreases fuel, 6nat, 0nat,
{
    proof {
        reveal(Q::equal);
        reveal(Q::sub);
        reveal(Q::equal_slow);
        reveal(Q::equal_var);
    }
    if fuel == 0 {
        return false;
    }
    if typewalk::obviously_egal(rt, x, y, MAX_NESTING) {
        return e.loffset == 0;
    }
    if (typewalk::is_indefinite_length_tuple(rt, x) && typewalk::is_definite_length_tuple(rt, y))
        || (typewalk::is_definite_length_tuple(rt, x) && typewalk::is_indefinite_length_tuple(
        rt,
        y,
    )) {
        return false;
    }
    if access::is_datatype(rt, x) && access::is_datatype(rt, y) {
        if access::name_of(rt, x) != access::name_of(rt, y) {
            return false;
        }
        if !access::is_tuple(rt, x) {
            return self::sub(rt, e, x, y, Param::Invariant, fuel - 1);
        }
    }
    if access::is_union(rt, x) && access::is_union(rt, y) {
        if e.pick(true) {
            return equal_slow(rt, e, x, y, fuel - 1);
        }
        let xa: u32 = access::union_a(rt, x);
        let ya: u32 = access::union_a(rt, y);
        if !forall_exists_equal(rt, e, xa, ya, fuel - 1) {
            return false;
        }
        let xb: u32 = access::union_b(rt, x);
        let yb: u32 = access::union_b(rt, y);
        return forall_exists_equal(rt, e, xb, yb, fuel - 1);
    }
    if e.loffset == 0 && access::is_typevar(rt, y) && !access::is_typevar(rt, x)
        && !access::is_boxed_long(rt, x) {
        return equal_var(rt, e, y, x, fuel - 1);
    }
    equal_slow(rt, e, x, y, fuel - 1)
}

/// Invariant equality by subtyping in both directions.
#[verifier::rlimit(100)]
#[verifier::spinoff_prover]
fn equal_slow(rt: &mut Runtime, e: &mut Env, x: u32, y: u32, fuel: u32) -> (r: bool)
    ensures
        (at(*final(rt), *final(e)), r) == at(*old(rt), *old(e)).equal_slow(x, y, fuel as nat),
    decreases fuel, 6nat, 0nat,
{
    proof {
        reveal(Q::equal_slow);
        reveal(Q::local);
    }
    if fuel == 0 {
        return false;
    }
    let old_l: UnionState = e.lunions.save();
    let mut ok: bool = local_forall_exists_subtype(rt, e, x, y, Param::Invariant, 2, fuel - 1);
    if ok {
        e.loffset = neg(e.loffset);
        ok = local_forall_exists_subtype(rt, e, y, x, Param::Top, 0, fuel - 1);
        e.loffset = neg(e.loffset);
    }
    e.lunions.restore(&old_l);
    ok
}

/// Equality of the variable `v` with the type `x`.
#[verifier::rlimit(100)]
#[verifier::spinoff_prover]
fn equal_var(rt: &mut Runtime, e: &mut Env, v: u32, x: u32, fuel: u32) -> (r: bool)
    ensures
        (at(*final(rt), *final(e)), r) == at(*old(rt), *old(e)).equal_var(v, x, fuel as nat),
    decreases fuel, 6nat, 0nat,
{
    proof {
        reveal(Q::equal_var);
        reveal(Q::var_lt);
        reveal(Q::ccheck);
        reveal(Q::local);
        reveal(State::join);
    }
    if fuel == 0 {
        return false;
    }
    let idx: usize = match e.find(v) {
        Some(i) => i,
        None => {
            return x == v;
        },
    };
    e.record(idx, Param::Invariant);
    let b: VarBinding = e.vars[idx];
    if !b.existential {
        let limit: u8 = if typewalk::has_free_typevars(rt, x) {
            0
        } else {
            1
        };
        if !local_forall_exists_subtype(rt, e, x, b.lb, Param::Invariant, limit, fuel - 1) {
            return false;
        }
        return local_forall_exists_subtype(rt, e, b.ub, x, Param::Top, 0, fuel - 1);
    }
    if b.lb == x {
        return var_lt(rt, e, x, idx, Param::Top, fuel - 1);
    }
    if !ccheck(rt, e, x, b.ub, fuel - 1) {
        return false;
    }
    let lb: u32 = lb_at(e, idx);
    let j: u32 = simple_join(rt, lb, x, fuel - 1);
    set_lb(rt, e, idx, j);
    if ub_at(e, idx) == x {
        return true;
    }
    let lb2: u32 = lb_at(e, idx);
    if !ccheck(rt, e, lb2, x, fuel - 1) {
        return false;
    }
    set_ub(rt, e, idx, x);
    true
}

/// A query nested in a larger one. The limit is off (0), on (1), or on when either
/// side is ground (2).
#[verifier::rlimit(100)]
#[verifier::spinoff_prover]
fn local_forall_exists_subtype(
    rt: &mut Runtime,
    e: &mut Env,
    x: u32,
    y: u32,
    param: Param,
    limit: u8,
    fuel: u32,
) -> (r: bool)
    ensures
        (at(*final(rt), *final(e)), r) == at(*old(rt), *old(e)).local(x, y, param, limit as int, fuel as nat),
    decreases fuel, 6nat, 0nat,
{
    proof {
        reveal(Q::local);
        reveal(Q::left_loop);
        reveal(Q::slow_outer);
        reveal(Q::forall_exists);
        reveal(State::subtype);
    }
    if fuel == 0 {
        return false;
    }
    if typewalk::obviously_in_union(rt, y, x, MAX_NESTING) {
        return true;
    }
    let kx: bool = !typewalk::has_free_typevars(rt, x);
    let ky: bool = !typewalk::has_free_typevars(rt, y);
    if kx && ky {
        return subtype_at(rt, x, y, fuel - 1);
    }
    if !((!kx && typewalk::has_existential_typevar(rt, x, e)) || (!ky
        && typewalk::has_existential_typevar(rt, y, e))) {
        let old_r: UnionState = e.runions.save();
        e.lunions.clear();
        e.runions.clear();
        let ok: bool = forall_exists_subtype(rt, e, x, y, param, fuel - 1);
        e.runions.restore(&old_r);
        return ok;
    }
    if is_existential_typevar(rt, e, x) != is_existential_typevar(rt, e, y) {
        e.lunions.used = 0;
        return left_loop(rt, e, x, y, param, fuel - 1);
    }
    let limited_by: bool = if limit == 2 {
        kx || ky
    } else {
        limit != 0
    };
    let rmore: usize = e.runions.more;
    let se: SavedVars = save_vars(rt, e);
    let n0: usize = se.vars.len();
    let mut st: Slow = Slow { se, limited: false, ini_count: 0, latest: None, count: 0 };
    let ok: bool = slow_outer(rt, e, x, y, param, limited_by, rmore, &mut st, fuel - 1);
    if ok && e.runions.more > rmore && (st.limited || typewalk::env_unchanged(rt, e, &st.se)) {
        e.runions.more = rmore;
    }
    release_saved(rt, n0);
    ok
}

/// Enumerates left arms only: the bounds accumulate.
#[verifier::rlimit(100)]
#[verifier::spinoff_prover]
fn left_loop(rt: &mut Runtime, e: &mut Env, x: u32, y: u32, param: Param, fuel: u32) -> (r: bool)
    ensures
        (at(*final(rt), *final(e)), r) == at(*old(rt), *old(e)).left_loop(
            x,
            y,
            param,
            fuel as nat,
            MAX_PASSES as nat,
        ),
    decreases fuel, 1nat, MAX_PASSES,
{
    proof {
        reveal(Q::left_loop);
        reveal(Q::sub);
    }
    if fuel == 0 {
        return false;
    }
    let mut n: u64 = MAX_PASSES;
    while n > 0
        invariant
            n <= MAX_PASSES,
            fuel > 0,
            at(*old(rt), *old(e)).left_loop(x, y, param, fuel as nat, MAX_PASSES as nat) == at(
                *rt,
                *e,
            ).left_loop(x, y, param, fuel as nat, n as nat),
        decreases n,
    {
        proof {
            reveal(Q::left_loop);
            reveal(Q::sub);
        }
        e.lunions.rewind();
        if !self::sub(rt, e, x, y, param, fuel - 1) {
            return false;
        }
        if !e.next_combination(false) {
            return true;
        }
        n = n - 1;
    }
    false
}

/// The slow enumeration.
#[verifier::rlimit(100)]
#[verifier::spinoff_prover]
fn slow_outer(
    rt: &mut Runtime,
    e: &mut Env,
    x: u32,
    y: u32,
    param: Param,
    limited_by: bool,
    rmore: usize,
    st: &mut Slow,
    fuel: u32,
) -> (r: bool)
    ensures
        (at(*final(rt), *final(e)), final(st)@, r) == at(*old(rt), *old(e)).slow_outer(
            x,
            y,
            param,
            limited_by,
            rmore,
            old(st)@,
            fuel as nat,
            MAX_PASSES as nat,
        ),
    decreases fuel, 2nat, MAX_PASSES,
{
    proof {
        reveal(Q::slow_outer);
        reveal(Q::slow_inner);
    }
    if fuel == 0 {
        return false;
    }
    let mut n: u64 = MAX_PASSES;
    while n > 0
        invariant
            n <= MAX_PASSES,
            fuel > 0,
            at(*old(rt), *old(e)).slow_outer(
                x,
                y,
                param,
                limited_by,
                rmore,
                old(st)@,
                fuel as nat,
                MAX_PASSES as nat,
            ) == at(*rt, *e).slow_outer(
                x,
                y,
                param,
                limited_by,
                rmore,
                st@,
                fuel as nat,
                n as nat,
            ),
        decreases n,
    {
        proof {
            reveal(Q::slow_outer);
            reveal(Q::slow_inner);
        }
        match &st.latest {
            Some(u) => if st.ini_count == 0 {
                e.lunions.used = 0;
            } else {
                e.lunions.restore(u);
            },
            None => {
                e.lunions.used = 0;
            },
        }
        st.count = st.ini_count;
        let ok: bool = slow_inner(rt, e, x, y, param, limited_by, rmore, st, fuel);
        if ok || e.runions.more == rmore {
            return ok;
        }
        let more: bool = e.next_combination(true);
        restore_vars(rt, e, &st.se);
        e.runions.more = rmore;
        n = n - 1;
    }
    false
}

/// One run of the slow enumeration over the left arms.
#[verifier::rlimit(100)]
#[verifier::spinoff_prover]
fn slow_inner(
    rt: &mut Runtime,
    e: &mut Env,
    x: u32,
    y: u32,
    param: Param,
    limited_by: bool,
    rmore: usize,
    st: &mut Slow,
    fuel: u32,
) -> (r: bool)
    ensures
        (at(*final(rt), *final(e)), final(st)@, r) == at(*old(rt), *old(e)).slow_inner(
            x,
            y,
            param,
            limited_by,
            rmore,
            old(st)@,
            fuel as nat,
            MAX_PASSES as nat,
        ),
    decreases fuel, 1nat, MAX_PASSES,
{
    proof {
        reveal(Q::slow_inner);
        reveal(Q::sub);
    }
    if fuel == 0 {
        return false;
    }
    let mut n: u64 = MAX_PASSES;
    while n > 0
        invariant
            n <= MAX_PASSES,
            fuel > 0,
            at(*old(rt), *old(e)).slow_inner(
                x,
                y,
                param,
                limited_by,
                rmore,
                old(st)@,
                fuel as nat,
                MAX_PASSES as nat,
            ) == at(*rt, *e).slow_inner(
                x,
                y,
                param,
                limited_by,
                rmore,
                st@,
                fuel as nat,
                n as nat,
            ),
        decreases n,
    {
        proof {
            reveal(Q::slow_inner);
            reveal(Q::sub);
        }
        e.lunions.rewind();
        if st.count < 4 {
            st.count = st.count + 1;
        }
        let ok: bool = self::sub(rt, e, x, y, param, fuel - 1);
        if limited_by && st.count == 4 {
            st.limited = true;
        }
        if !ok {
            return false;
        }
        if !e.next_combination(false) {
            return true;
        }
        if st.limited || e.runions.more == rmore {
            st.ini_count = st.count;
            st.latest = Some(e.lunions.save());
            re_save_vars(rt, e, &mut st.se);
            e.runions.more = rmore;
        }
        n = n - 1;
    }
    false
}

/// The greatest lower bound of `a` and `b`.
#[verifier::rlimit(100)]
#[verifier::spinoff_prover]
fn simple_meet(rt: &mut Runtime, a: u32, b: u32, mode: u8, fuel: u32) -> (r: u32)
    ensures
        (final(rt)@, r) == old(rt)@.meet(a, b, mode as int, fuel as nat),
    decreases fuel, 6nat, 0nat,
{
    proof {
        reveal(State::meet);
        reveal(State::meet_unions);
    }
    let any: u32 = access::builtin(rt, id::ANY);
    let bottom: u32 = access::builtin(rt, id::BOTTOM);
    if fuel == 0 {
        return b;
    }
    if a == any || b == bottom || typewalk::obviously_egal(rt, a, b, MAX_NESTING) {
        return b;
    }
    if b == any || a == bottom {
        return a;
    }
    if mode == 1 && (access::is_intersect(rt, a) || access::is_intersect(rt, b)) {
        return types::intersect_type(rt, a, b);
    }
    if !typewalk::is_type_or_typevar(rt, a) || !typewalk::is_type_or_typevar(rt, b) {
        return bottom;
    }
    if types::is_kind(rt, a) && types::is_type_type(rt, b) && access::tag_of(
        rt,
        access::svec_ref(rt, access::parameters_of(rt, b), 0),
    ) == a {
        return b;
    }
    if types::is_kind(rt, b) && types::is_type_type(rt, a) && access::tag_of(
        rt,
        access::svec_ref(rt, access::parameters_of(rt, a), 0),
    ) == b {
        return a;
    }
    if access::is_typevar(rt, a) && typewalk::obviously_egal(
        rt,
        b,
        access::tvar_ub(rt, a),
        MAX_NESTING,
    ) {
        return a;
    }
    if access::is_typevar(rt, b) && typewalk::obviously_egal(
        rt,
        a,
        access::tvar_ub(rt, b),
        MAX_NESTING,
    ) {
        return b;
    }
    simple_intersect(rt, a, b, mode, fuel - 1)
}

/// Whether `x` and `y` provably share no instance.
#[verifier::rlimit(100)]
#[verifier::spinoff_prover]
fn obviously_disjoint(rt: &mut Runtime, x: u32, y: u32, fuel: u32) -> (r: bool)
    ensures
        (final(rt)@, r) == old(rt)@.disjoint(x, y, fuel as nat),
    decreases fuel, 6nat, 0nat,
{
    proof {
        reveal(State::disjoint);
        reveal(State::subtype);
    }
    if fuel == 0 || x == y || !access::is_datatype(rt, x) || !access::is_datatype(rt, y)
        || access::is_tuple(rt, x) || access::is_tuple(rt, y) || types::is_type_type(rt, x)
        || types::is_type_type(rt, y) || typewalk::has_free_typevars(rt, x)
        || typewalk::has_free_typevars(rt, y) {
        return false;
    }
    if subtype_at(rt, x, y, fuel - 1) {
        return false;
    }
    !subtype_at(rt, y, x, fuel - 1)
}

/// `n` times the same value.
fn falses(n: usize) -> (r: Vec<bool>)
    ensures
        r@ == Seq::new(n as nat, |i: int| false),
{
    let mut r: Vec<bool> = Vec::new();
    while r.len() < n
        invariant
            r.len() <= n,
            forall|k: int| 0 <= k < r.len() ==> r@[k] == false,
        decreases n - r.len(),
    {
        r.push(false);
    }
    assert(r@ =~= Seq::new(n as nat, |i: int| false));
    r
}

/// `n` times the same value.
fn trues(n: usize) -> (r: Vec<bool>)
    ensures
        r@ == Seq::new(n as nat, |i: int| true),
{
    let mut r: Vec<bool> = Vec::new();
    while r.len() < n
        invariant
            r.len() <= n,
            forall|k: int| 0 <= k < r.len() ==> r@[k] == true,
        decreases n - r.len(),
    {
        r.push(true);
    }
    assert(r@ =~= Seq::new(n as nat, |i: int| true));
    r
}

/// `n` zeros.
fn zero_standings(n: usize) -> (r: Vec<i8>)
    ensures
        r@ == Seq::new(n as nat, |i: int| 0i8),
{
    let mut r: Vec<i8> = Vec::new();
    while r.len() < n
        invariant
            r.len() <= n,
            forall|k: int| 0 <= k < r.len() ==> r@[k] == 0i8,
        decreases n - r.len(),
    {
        r.push(0);
    }
    assert(r@ =~= Seq::new(n as nat, |i: int| 0i8));
    r
}

/// Marks component `i` and those of the other side, from `na` on, that are not
/// disjoint from it.
#[verifier::rlimit(100)]
#[verifier::spinoff_prover]
fn alive_row(
    rt: &mut Runtime,
    comps: &Vec<u32>,
    alive: &mut Vec<bool>,
    i: usize,
    na: usize,
    fuel: u32,
)
    requires
        old(alive).len() == comps.len(),
        i < comps.len(),
        na <= comps.len(),
    ensures
        final(alive).len() == comps.len(),
        (final(rt)@, final(alive)@) == old(rt)@.alive_row(
            comps@,
            old(alive)@,
            i as int,
            na as int,
            fuel as nat,
        ),
    decreases fuel, 1nat, 0nat,
{
    proof {
        reveal(State::alive_row);
        reveal(State::disjoint);
    }
    if fuel == 0 {
        return;
    }
    let mut j: usize = na;
    while j < comps.len()
        invariant
            alive.len() == comps.len(),
            i < comps.len(),
            j <= comps.len(),
            fuel > 0,
            old(rt)@.alive_row(comps@, old(alive)@, i as int, na as int, fuel as nat)
                == rt@.alive_row(comps@, alive@, i as int, j as int, fuel as nat),
        decreases comps.len() - j,
    {
        proof {
            reveal(State::alive_row);
            reveal(State::disjoint);
        }
        if !alive[i] || !alive[j] {
            if !obviously_disjoint(rt, comps[i], comps[j], fuel - 1) {
                alive.set(i, true);
                alive.set(j, true);
            }
        }
        j = j + 1;
    }
    proof {
        reveal(State::alive_row);
        reveal(State::disjoint);
    }
}

/// Relates component `i` to those of the other side, from `na` on.
#[verifier::rlimit(100)]
#[verifier::spinoff_prover]
fn standing_row(
    rt: &mut Runtime,
    comps: &Vec<u32>,
    alive: &Vec<bool>,
    st: &mut Vec<i8>,
    i: usize,
    na: usize,
    fuel: u32,
)
    requires
        alive.len() == comps.len(),
        old(st).len() == comps.len(),
        i < comps.len(),
        na <= comps.len(),
    ensures
        final(st).len() == comps.len(),
        (final(rt)@, final(st)@) == old(rt)@.standing_row(
            comps@,
            alive@,
            old(st)@,
            i as int,
            na as int,
            fuel as nat,
        ),
    decreases fuel, 1nat, 0nat,
{
    proof {
        reveal(State::standing_row);
        reveal(State::subtype);
    }
    if fuel == 0 {
        return;
    }
    let mut j: usize = na;
    while j < comps.len()
        invariant
            alive.len() == comps.len(),
            st.len() == comps.len(),
            i < comps.len(),
            j <= comps.len(),
            fuel > 0,
            old(rt)@.standing_row(comps@, alive@, old(st)@, i as int, na as int, fuel as nat)
                == rt@.standing_row(comps@, alive@, st@, i as int, j as int, fuel as nat),
        decreases comps.len() - j,
    {
        proof {
            reveal(State::standing_row);
            reveal(State::subtype);
        }
        if alive[j] {
            let ij: bool = subtype_at(rt, comps[i], comps[j], fuel - 1);
            let ji: bool = subtype_at(rt, comps[j], comps[i], fuel - 1);
            compare_standings(st, i, j, ij, ji);
        }
        j = j + 1;
    }
    proof {
        reveal(State::standing_row);
        reveal(State::subtype);
    }
}

/// Updates the standings after components `i` and `j` were compared both ways.
fn compare_standings(st: &mut Vec<i8>, i: usize, j: usize, ij: bool, ji: bool)
    requires
        i < old(st).len(),
        j < old(st).len(),
    ensures
        final(st).len() == old(st).len(),
        final(st)@ == stand(old(st)@, i as int, j as int, ij, ji),
{
    if ji && !ij {
        st.set(i, -1);
        if st[j] >= 0 {
            st.set(j, 2);
        }
    } else if ij && !ji {
        st.set(j, -1);
        if st[i] >= 0 {
            st.set(i, 2);
        }
    } else if ij && ji {
        if st[i] == 0 {
            st.set(i, 1);
        }
        if st[j] == 0 {
            st.set(j, 1);
        }
    }
}

/// Whether some component from `lo` up to `hi` is alive.
fn some_alive(alive: &Vec<bool>, lo: usize, hi: usize) -> (r: bool)
    requires
        hi <= alive.len(),
    ensures
        r == any_alive(alive@, lo as int, hi as int),
{
    let mut k: usize = lo;
    while k < hi
        invariant
            lo <= k,
            hi <= alive.len(),
            forall|m: int| lo <= m < k && m < hi ==> !alive@[m],
        decreases hi - k,
    {
        if alive[k] {
            return true;
        }
        k = k + 1;
    }
    false
}

/// Whether every component from `lo` up to `hi` is dead or at or below one of the
/// other side; `strict` demands that all are alive.
fn every_below(alive: &Vec<bool>, st: &Vec<i8>, lo: usize, hi: usize, strict: bool) -> (r: bool)
    requires
        hi <= alive.len(),
        st.len() == alive.len(),
    ensures
        r == all_below(alive@, st@, lo as int, hi as int, strict),
{
    let mut k: usize = lo;
    while k < hi
        invariant
            lo <= k,
            hi <= alive.len(),
            st.len() == alive.len(),
            forall|m: int|
                #![trigger alive@[m]]
                lo <= m < k && m < hi ==> if strict {
                    alive@[m] && st@[m] > 0
                } else {
                    !alive@[m] || st@[m] > 0
                },
        decreases hi - k,
    {
        let live: bool = alive[k];
        let below: bool = st[k] > 0;
        let fine: bool = if strict {
            live && below
        } else {
            !live || below
        };
        if !fine {
            assert(alive@[k as int] == live);
            return false;
        }
        k = k + 1;
    }
    true
}

/// Appends the live components from `lo` up to `hi` whose standing is at least
/// `least`.
fn push_kept(
    out: &mut Vec<u32>,
    comps: &Vec<u32>,
    alive: &Vec<bool>,
    st: &Vec<i8>,
    lo: usize,
    hi: usize,
    least: i8,
)
    requires
        lo <= hi <= comps.len(),
        alive.len() == comps.len(),
        st.len() == comps.len(),
    ensures
        final(out)@ == old(out)@ + kept(
            comps@,
            alive@,
            st@,
            lo as int,
            hi as int,
            least as int,
            hi as int,
        ),
{
    let mut k: usize = lo;
    assert(out@ =~= old(out)@ + kept(
        comps@,
        alive@,
        st@,
        lo as int,
        hi as int,
        least as int,
        lo as int,
    ));
    while k < hi
        invariant
            lo <= k <= hi <= comps.len(),
            alive.len() == comps.len(),
            st.len() == comps.len(),
            out@ == old(out)@ + kept(
                comps@,
                alive@,
                st@,
                lo as int,
                hi as int,
                least as int,
                k as int,
            ),
        decreases hi - k,
    {
        if alive[k] && st[k] >= least {
            out.push(comps[k]);
        }
        k = k + 1;
        assert(out@ =~= old(out)@ + kept(
            comps@,
            alive@,
            st@,
            lo as int,
            hi as int,
            least as int,
            k as int,
        ));
    }
}

/// The meet of two types by their union components.
#[verifier::rlimit(100)]
#[verifier::spinoff_prover]
fn simple_intersect(rt: &mut Runtime, a: u32, b: u32, mode: u8, fuel: u32) -> (r: u32)
    ensures
        (final(rt)@, r) == old(rt)@.meet_unions(a, b, mode as int, fuel as nat),
    decreases fuel, 6nat, 0nat,
{
    proof {
        reveal(State::meet_unions);
        reveal(State::alive_rows);
        reveal(State::standing_rows);
        reveal(State::union_all);
    }
    if fuel == 0 {
        return b;
    }
    let bottom: u32 = access::builtin(rt, id::BOTTOM);
    let ghost s0 = rt@;
    let mut comps: Vec<u32> = Vec::new();
    typewalk::flatten_union(rt, a, &mut comps, MAX_NESTING);
    assert(comps@ =~= s0.flatten(a, MAX_NESTING as nat));
    let na: usize = comps.len();
    typewalk::flatten_union(rt, b, &mut comps, MAX_NESTING);
    let n: usize = comps.len();
    let mut alive: Vec<bool> = falses(n);
    alive_rows(rt, &comps, &mut alive, na, fuel - 1);
    let mut st: Vec<i8> = zero_standings(n);
    standing_rows(rt, &comps, &alive, &mut st, na, fuel - 1);
    let none_left: bool = !some_alive(&alive, 0, na);
    let sub_a: bool = none_left || every_below(&alive, &st, 0, na, false);
    let sub_b: bool = none_left || every_below(&alive, &st, na, n, false);
    if !none_left && every_below(&alive, &st, 0, na, true) {
        return a;
    }
    if !none_left && every_below(&alive, &st, na, n, true) {
        return b;
    }
    if none_left || (mode == 0 && !sub_a && !sub_b) {
        return bottom;
    }
    if !sub_a && !sub_b && mode == 1 {
        return types::intersect_type(rt, a, b);
    }
    let mut keep: Vec<u32> = Vec::new();
    let ghost k0 = keep@;
    if sub_a {
        push_kept(&mut keep, &comps, &alive, &st, 0, na, -2);
        assert(keep@ =~= kept(comps@, alive@, st@, 0, na as int, -2, na as int));
    } else if sub_b {
        push_kept(&mut keep, &comps, &alive, &st, na, n, -2);
        assert(keep@ =~= kept(comps@, alive@, st@, na as int, n as int, -2, n as int));
    } else {
        push_kept(&mut keep, &comps, &alive, &st, 0, na, 2);
        push_kept(&mut keep, &comps, &alive, &st, na, n, 0);
        assert(keep@ =~= kept(comps@, alive@, st@, 0, na as int, 2, na as int) + kept(
            comps@,
            alive@,
            st@,
            na as int,
            n as int,
            0,
            n as int,
        ));
    }
    if keep.len() == 0 {
        return bottom;
    }
    union_at(rt, &keep, fuel - 1)
}

/// Marks the components that are not disjoint from every component of the other
/// side.
#[verifier::rlimit(100)]
#[verifier::spinoff_prover]
fn alive_rows(rt: &mut Runtime, comps: &Vec<u32>, alive: &mut Vec<bool>, na: usize, fuel: u32)
    requires
        old(alive).len() == comps.len(),
        na <= comps.len(),
    ensures
        final(alive).len() == comps.len(),
        (final(rt)@, final(alive)@) == old(rt)@.alive_rows(
            comps@,
            old(alive)@,
            na as int,
            0,
            fuel as nat,
        ),
    decreases fuel, 2nat, 0nat,
{
    proof {
        reveal(State::alive_rows);
        reveal(State::alive_row);
    }
    if fuel == 0 {
        return;
    }
    let mut i: usize = 0;
    while i < na
        invariant
            alive.len() == comps.len(),
            i <= na <= comps.len(),
            fuel > 0,
            old(rt)@.alive_rows(comps@, old(alive)@, na as int, 0, fuel as nat)
                == rt@.alive_rows(comps@, alive@, na as int, i as int, fuel as nat),
        decreases na - i,
    {
        proof {
            reveal(State::alive_rows);
            reveal(State::alive_row);
        }
        alive_row(rt, comps, alive, i, na, fuel);
        i = i + 1;
    }
    proof {
        reveal(State::alive_rows);
        reveal(State::alive_row);
    }
}

/// Relates the live components of one side to those of the other.
#[verifier::rlimit(100)]
#[verifier::spinoff_prover]
fn standing_rows(
    rt: &mut Runtime,
    comps: &Vec<u32>,
    alive: &Vec<bool>,
    st: &mut Vec<i8>,
    na: usize,
    fuel: u32,
)
    requires
        alive.len() == comps.len(),
        old(st).len() == comps.len(),
        na <= comps.len(),
    ensures
        final(st).len() == comps.len(),
        (final(rt)@, final(st)@) == old(rt)@.standing_rows(
            comps@,
            alive@,
            old(st)@,
            na as int,
            0,
            fuel as nat,
        ),
    decreases fuel, 2nat, 0nat,
{
    proof {
        reveal(State::standing_rows);
        reveal(State::standing_row);
    }
    if fuel == 0 {
        return;
    }
    let mut i: usize = 0;
    while i < na
        invariant
            alive.len() == comps.len(),
            st.len() == comps.len(),
            i <= na <= comps.len(),
            fuel > 0,
            old(rt)@.standing_rows(comps@, alive@, old(st)@, na as int, 0, fuel as nat)
                == rt@.standing_rows(comps@, alive@, st@, na as int, i as int, fuel as nat),
        decreases na - i,
    {
        proof {
            reveal(State::standing_rows);
            reveal(State::standing_row);
        }
        if alive[i] {
            standing_row(rt, comps, alive, st, i, na, fuel);
        }
        i = i + 1;
    }
    proof {
        reveal(State::standing_rows);
        reveal(State::standing_row);
    }
}

/// An ordinary type above the meet spine `t`.
#[verifier::rlimit(100)]
#[verifier::spinoff_prover]
fn widen_intersect(rt: &mut Runtime, t: u32, fuel: u32) -> (r: u32)
    ensures
        (final(rt)@, r) == old(rt)@.widen(t, fuel as nat),
    decreases fuel, 6nat, 0nat,
{
    proof {
        reveal(State::widen);
        reveal(State::meet);
    }
    if fuel == 0 || !access::is_intersect(rt, t) {
        return t;
    }
    let ta: u32 = access::union_a(rt, t);
    let a: u32 = widen_intersect(rt, ta, fuel - 1);
    let tb: u32 = access::union_b(rt, t);
    rt.push_root(a);
    let b: u32 = widen_intersect(rt, tb, fuel - 1);
    rt.push_root(b);
    let m: u32 = simple_meet(rt, a, b, 2, fuel - 1);
    rt.pop_roots(2);
    m
}

/// The least upper bound of `a` and `b`.
#[verifier::rlimit(100)]
#[verifier::spinoff_prover]
fn simple_join(rt: &mut Runtime, a: u32, b: u32, fuel: u32) -> (r: u32)
    ensures
        (final(rt)@, r) == old(rt)@.join(a, b, fuel as nat),
    decreases fuel, 6nat, 0nat,
{
    proof {
        reveal(State::join);
        reveal(State::union_all);
    }
    let any: u32 = access::builtin(rt, id::ANY);
    let bottom: u32 = access::builtin(rt, id::BOTTOM);
    if a == bottom || b == any || a == b {
        return b;
    }
    if fuel == 0 || b == bottom || a == any {
        return a;
    }
    let parts: Vec<u32> = vec![a, b];
    assert(parts@ =~= seq![a, b]);
    union_at(rt, &parts, fuel - 1)
}

/// Whether component `i` survives normalisation.
#[verifier::rlimit(100)]
#[verifier::spinoff_prover]
fn survives(rt: &mut Runtime, comps: &Vec<u32>, keep: &Vec<bool>, i: usize, fuel: u32) -> (r: bool)
    requires
        keep.len() == comps.len(),
        i < comps.len(),
    ensures
        (final(rt)@, r) == old(rt)@.survives(comps@, keep@, i as int, 0, fuel as nat),
    decreases fuel, 1nat, 0nat,
{
    proof {
        reveal(State::survives);
        reveal(State::subtype);
    }
    if fuel == 0 {
        return true;
    }
    let mut j: usize = 0;
    while j < comps.len()
        invariant
            keep.len() == comps.len(),
            i < comps.len(),
            j <= comps.len(),
            fuel > 0,
            old(rt)@.survives(comps@, keep@, i as int, 0, fuel as nat) == rt@.survives(
                comps@,
                keep@,
                i as int,
                j as int,
                fuel as nat,
            ),
        decreases comps.len() - j,
    {
        proof {
            reveal(State::survives);
            reveal(State::subtype);
        }
        if i != j && keep[j] && subtype_at(rt, comps[i], comps[j], fuel - 1) {
            let ji: bool = subtype_at(rt, comps[j], comps[i], fuel - 1);
            if !(ji && i < j) {
                return false;
            }
        }
        j = j + 1;
    }
    proof {
        reveal(State::survives);
        reveal(State::subtype);
    }
    true
}

/// Marks the components that survive normalisation.
#[verifier::rlimit(100)]
#[verifier::spinoff_prover]
fn survivors(rt: &mut Runtime, comps: &Vec<u32>, keep: &mut Vec<bool>, fuel: u32)
    requires
        old(keep).len() == comps.len(),
    ensures
        final(keep).len() == comps.len(),
        (final(rt)@, final(keep)@) == old(rt)@.survivors(comps@, old(keep)@, 0, fuel as nat),
    decreases fuel, 2nat, 0nat,
{
    proof {
        reveal(State::survivors);
        reveal(State::survives);
    }
    if fuel == 0 {
        return;
    }
    let mut i: usize = 0;
    while i < comps.len()
        invariant
            keep.len() == comps.len(),
            i <= comps.len(),
            fuel > 0,
            old(rt)@.survivors(comps@, old(keep)@, 0, fuel as nat) == rt@.survivors(
                comps@,
                keep@,
                i as int,
                fuel as nat,
            ),
        decreases comps.len() - i,
    {
        proof {
            reveal(State::survivors);
            reveal(State::survives);
        }
        if comps[i] == access::builtin(rt, id::BOTTOM) {
            keep.set(i, false);
        } else {
            let ok: bool = survives(rt, comps, keep, i, fuel);
            keep.set(i, ok);
        }
        i = i + 1;
    }
    proof {
        reveal(State::survivors);
        reveal(State::survives);
    }
}

/// The kept components.
fn kept_list(comps: &Vec<u32>, keep: &Vec<bool>) -> (r: Vec<u32>)
    requires
        keep.len() == comps.len(),
    ensures
        r@ == filter_kept(comps@, keep@, comps.len() as int),
{
    let mut r: Vec<u32> = Vec::new();
    let mut i: usize = 0;
    assert(r@ =~= filter_kept(comps@, keep@, 0));
    while i < comps.len()
        invariant
            i <= comps.len(),
            keep.len() == comps.len(),
            r@ == filter_kept(comps@, keep@, i as int),
        decreases comps.len() - i,
    {
        if keep[i] {
            r.push(comps[i]);
        }
        i = i + 1;
        assert(r@ =~= filter_kept(comps@, keep@, i as int));
    }
    r
}

/// The right-nested union of `parts`.
fn build_union(rt: &mut Runtime, parts: &Vec<u32>) -> (r: u32)
    requires
        parts.len() > 0,
    ensures
        (final(rt)@, r) == old(rt)@.nest_unions(parts@, parts.len() - 1, parts@.last()),
{
    let mut acc: u32 = parts[parts.len() - 1];
    let mut n: usize = parts.len() - 1;
    while n > 0
        invariant
            n < parts.len(),
            old(rt)@.nest_unions(parts@, parts.len() - 1, parts@.last()) == rt@.nest_unions(
                parts@,
                n as int,
                acc,
            ),
        decreases n,
    {
        acc = types::union_node(rt, parts[n - 1], acc);
        n = n - 1;
    }
    acc
}

/// The normalised union of `parts`, as far as the fuel allows.
#[verifier::rlimit(100)]
#[verifier::spinoff_prover]
pub(crate) fn union_at(rt: &mut Runtime, parts: &Vec<u32>, fuel: u32) -> (r: u32)
    ensures
        (final(rt)@, r) == old(rt)@.union_all(parts@, fuel as nat),
    decreases fuel, 6nat, 0nat,
{
    proof {
        reveal(State::union_all);
        reveal(State::survivors);
    }
    let bottom: u32 = access::builtin(rt, id::BOTTOM);
    if fuel == 0 {
        return access::builtin(rt, id::ANY);
    }
    rt.push_roots(parts);
    let comps: Vec<u32> = typewalk::flatten_all(rt, parts);
    let mut keep: Vec<bool> = trues(comps.len());
    survivors(rt, &comps, &mut keep, fuel - 1);
    let left: Vec<u32> = kept_list(&comps, &keep);
    let sorted: Vec<u32> = typewalk::sort_types(rt, &left);
    let members: Vec<u32> = typewalk::dedup_list(&sorted);
    if members.len() == 0 {
        rt.pop_roots(parts.len());
        return bottom;
    }
    let u: u32 = build_union(rt, &members);
    rt.pop_roots(parts.len());
    u
}

/// A walk that succeeds at once, without meeting a union, answers the query.
proof fn lemma_immediate(s: State, a: u32, b: u32, fuel: nat)
    requires
        fuel >= 2,
        ({
            let q = Q { s: s.push_roots(seq![a, b]), e: EnvV::empty() };
            q.sub(a, b, Param::Top, (fuel - 2) as nat) == (q, true)
        }),
    ensures
        s.subtype(a, b, fuel) == (s, true),
{
    reveal(State::subtype);
    reveal(Q::forall_exists);
    reveal(Q::forall_loop);
    reveal(Q::exists_loop);
    reveal(Q::sub);
    let q = Q { s: s.push_roots(seq![a, b]), e: EnvV::empty() };
    let (q1, se) = q.save();
    assert(bounds(q.e.vars) =~= Seq::<u32>::empty());
    assert(q.s.push_roots(Seq::<u32>::empty()) =~= q.s);
    assert(q1 =~= q);
    let f: nat = (fuel - 1) as nat;
    let n: nat = MAX_PASSES as nat;
    assert(q.exists_loop(a, b, Param::Top, se, f, n) == (q, true));
    assert(q.forall_loop(a, b, Param::Top, se, f, n) == (q, true));
    assert(q.release(se) =~= q);
    assert(q.forall_exists(a, b, Param::Top, fuel) == (q, true));
    assert(q.s.pop_roots(2) =~= s);
}

/// Subtyping is reflexive: every type is a subtype of itself, and the query leaves
/// no trace.
pub proof fn law_subtype_reflexive(s: State, t: u32)
    ensures
        s.subtype(t, t, MAX_NESTING as nat) == (s, true),
{
    reveal(Q::sub);
    lemma_immediate(s, t, t, MAX_NESTING as nat);
}

/// `Any` is on top: every type that is neither a union nor a variable is below it.
pub proof fn law_any_is_top(s: State, t: u32)
    requires
        !s.is_union(t),
        !s.is_typevar(t),
        !s.is_union(s.builtin(id::ANY)),
        !s.is_intersect(s.builtin(id::ANY)),
        !s.is_typevar(s.builtin(id::ANY)),
    ensures
        s.subtype(t, s.builtin(id::ANY), MAX_NESTING as nat) == (s, true),
{
    lemma_ground(s, t, s.builtin(id::ANY));
}

/// `Union{}` is at the bottom: it is below every type that is neither a union, a
/// variable nor a meet.
pub proof fn law_bottom_is_least(s: State, t: u32)
    requires
        !s.is_union(t),
        !s.is_intersect(t),
        !s.is_typevar(t),
        !s.is_union(s.builtin(id::BOTTOM)),
        !s.is_typevar(s.builtin(id::BOTTOM)),
    ensures
        s.subtype(s.builtin(id::BOTTOM), t, MAX_NESTING as nat) == (s, true),
{
    lemma_ground(s, s.builtin(id::BOTTOM), t);
}

/// A ground query whose right side is `Any` or whose left side is `Union{}`.
proof fn lemma_ground(s: State, a: u32, b: u32)
    requires
        !s.is_union(a),
        !s.is_typevar(a),
        !s.is_union(b),
        !s.is_intersect(b),
        !s.is_typevar(b),
        a == s.builtin(id::BOTTOM) || b == s.builtin(id::ANY),
    ensures
        s.subtype(a, b, MAX_NESTING as nat) == (s, true),
{
    reveal(Q::sub);
    reveal(Q::sub_right);
    reveal(Q::sub_vars);
    reveal(Q::sub_ground);
    let q = Q { s: s.push_roots(seq![a, b]), e: EnvV::empty() };
    let f: nat = (MAX_NESTING - 2) as nat;
    assert(q.sub_ground(a, b, Param::Top, f) == (q, true));
    assert(q.sub_vars(a, b, Param::Top, f) == (q, true));
    assert(q.sub_right(a, b, Param::Top, f) == (q, true));
    assert(q.sub(a, b, Param::Top, f) == (q, true));
    lemma_immediate(s, a, b, MAX_NESTING as nat);
}

/// The union of no types is `Union{}`, and the union of one type that is neither a
/// union nor `Union{}` is that type.
pub proof fn law_small_unions(s: State, t: u32)
    requires
        !s.is_union(t),
        t != s.builtin(id::BOTTOM),
    ensures
        s.union_all(Seq::empty(), MAX_NESTING as nat).1 == s.builtin(id::BOTTOM),
        s.union_all(seq![t], MAX_NESTING as nat).1 == t,
{
    reveal(State::union_all);
    reveal(State::survivors);
    reveal(State::survives);
    let f: nat = (MAX_NESTING - 1) as nat;
    let none = Seq::<u32>::empty();
    let s0 = s.push_roots(none);
    assert(s0.flatten_all(none, 0) =~= none);
    assert(filter_kept(none, Seq::new(0, |i: int| true), 0) =~= none);
    assert(s0.sorted(none, 0) =~= none);
    let one = seq![t];
    let s1 = s.push_roots(one);
    assert(s1.flatten(t, MAX_NESTING as nat) =~= one);
    assert(s1.flatten_all(one, 0) =~= none);
    assert(s1.flatten_all(one, 1) =~= one);
    let keep = Seq::new(1, |i: int| true);
    assert(s1.survives(one, keep, 0, 1, f) == (s1, true));
    assert(s1.survives(one, keep, 0, 0, f) == (s1, true));
    assert(keep.update(0, true) =~= keep);
    assert(s1.survivors(one, keep, 1, f) == (s1, keep));
    assert(s1.survivors(one, keep, 0, f) == (s1, keep));
    assert(filter_kept(one, keep, 0) =~= none);
    assert(filter_kept(one, keep, 1) =~= one);
    assert(s1.sorted(one, 0) =~= none);
    assert(s1.sorted(one, 1) =~= one);
}

} // verus!
