//! Substitution in types: `body where var`, applied to a type.

use vstd::prelude::*;
use crate::access;
use crate::access::MAX_NESTING;
use crate::region::NULL;
use crate::state::{Runtime, State};
use crate::types;

verus! {

impl State {
    /// The type `t` with `var` replaced by `val`. A part in which the variable does
    /// not occur stays the same object; below the nesting limit nothing changes.
    #[verifier::opaque]
    pub open spec fn subst(self, t: u32, var: u32, val: u32, fuel: nat) -> (State, u32)
        decreases fuel, 1nat, 0int,
    {
        if t == var {
            (self, val)
        } else if fuel == 0 {
            (self, t)
        } else if self.is_union(t) {
            let (s1, a) = self.subst(self.union_a(t), var, val, (fuel - 1) as nat);
            let (s2, b) = s1.push_root(a).subst(self.union_b(t), var, val, (fuel - 1) as nat);
            let s3 = s2.pop_roots(1);
            if a == self.union_a(t) && b == self.union_b(t) {
                (s3, t)
            } else {
                s3.union_all(seq![a, b], MAX_NESTING as nat)
            }
        } else if self.is_unionall(t) {
            if self.unionall_var(t) == var {
                (self, t)
            } else {
                self.subst_where(t, var, val, fuel)
            }
        } else if self.is_vararg(t) {
            let (s1, a) = self.subst(self.vararg_elem(t), var, val, (fuel - 1) as nat);
            let (s2, b) = s1.push_root(a).subst(self.vararg_num(t), var, val, (fuel - 1) as nat);
            let s3 = s2.pop_roots(1);
            if a == self.vararg_elem(t) && b == self.vararg_num(t) {
                (s3, t)
            } else {
                s3.vararg(a, b)
            }
        } else if self.is_datatype(t) && self.parameters(t) != NULL {
            let old_params = self.svec_seq(self.parameters(t));
            let n = old_params.len() as int;
            let (s1, params) = self.subst_list(old_params, var, val, Seq::empty(), fuel);
            if params == old_params {
                (s1.pop_roots(n), t)
            } else {
                let (s2, super_) = s1.subst(self.supertype(t), var, val, (fuel - 1) as nat);
                let (s3, r) = s2.push_root(super_).apply(
                    self.name_of(t),
                    super_,
                    params,
                    self.layout(t),
                    self.size_of(t),
                );
                (s3.pop_roots(n + 1), r)
            }
        } else {
            (self, t)
        }
    }

    /// Substitution below a `where`: a variable whose bounds change is renewed.
    #[verifier::opaque]
    pub open spec fn subst_where(self, t: u32, var: u32, val: u32, fuel: nat) -> (State, u32)
        decreases fuel, 0nat, 0int,
    {
        if fuel == 0 {
            (self, t)
        } else {
            let v = self.unionall_var(t);
            let body = self.unionall_body(t);
            let (s1, lb) = self.subst(self.tvar_lb(v), var, val, (fuel - 1) as nat);
            let (s2, ub) = s1.push_root(lb).subst(self.tvar_ub(v), var, val, (fuel - 1) as nat);
            let s3 = s2.push_root(ub);
            if lb == self.tvar_lb(v) && ub == self.tvar_ub(v) {
                let (s4, b) = s3.subst(body, var, val, (fuel - 1) as nat);
                let s5 = s4.pop_roots(2);
                if b == body {
                    (s5, t)
                } else {
                    s5.unionall_type(v, b)
                }
            } else {
                let (s4, w) = s3.typevar(self.tvar_name(v), lb, ub);
                let (s5, b1) = s4.push_root(w).subst(body, v, w, (fuel - 1) as nat);
                let (s6, b2) = s5.push_root(b1).subst(b1, var, val, (fuel - 1) as nat);
                s6.pop_roots(4).unionall_type(w, b2)
            }
        }
    }

    /// Substitution in the parameters that `done` does not cover yet; every result
    /// is left on the shadow stack.
    #[verifier::opaque]
    pub open spec fn subst_list(
        self,
        ts: Seq<u32>,
        var: u32,
        val: u32,
        done: Seq<u32>,
        fuel: nat,
    ) -> (State, Seq<u32>)
        decreases fuel, 0nat, ts.len() - done.len(),
    {
        if done.len() >= ts.len() || fuel == 0 {
            (self, done)
        } else {
            let (s, r) = self.subst(ts[done.len() as int], var, val, (fuel - 1) as nat);
            s.push_root(r).subst_list(ts, var, val, done.push(r), fuel)
        }
    }

    /// The `where` type `u` applied to `p`.
    pub open spec fn instantiate(self, u: u32, p: u32) -> (State, u32) {
        if self.is_unionall(u) {
            let (s, t) = self.push_roots(seq![u, p]).subst(
                self.unionall_body(u),
                self.unionall_var(u),
                p,
                MAX_NESTING as nat,
            );
            (s.pop_roots(2), t)
        } else {
            (self, u)
        }
    }
}

/// The type `t` with `var` replaced by `val`.
#[verifier::rlimit(60)]
fn subst(rt: &mut Runtime, t: u32, var: u32, val: u32, fuel: u32) -> (r: u32)
    ensures
        (final(rt)@, r) == old(rt)@.subst(t, var, val, fuel as nat),
    decreases fuel, 1nat, 0int,
{
    proof {
        reveal(State::subst);
        reveal(State::subst_where);
        reveal(State::subst_list);
    }
    if t == var {
        return val;
    }
    if fuel == 0 {
        return t;
    }
    if access::is_union(rt, t) {
        let ta: u32 = access::union_a(rt, t);
        let tb: u32 = access::union_b(rt, t);
        let a: u32 = subst(rt, ta, var, val, fuel - 1);
        rt.push_root(a);
        let b: u32 = subst(rt, tb, var, val, fuel - 1);
        rt.pop_roots(1);
        if a == ta && b == tb {
            return t;
        }
        return types::union_type(rt, a, b);
    }
    if access::is_unionall(rt, t) {
        if access::unionall_var(rt, t) == var {
            return t;
        }
        return subst_where(rt, t, var, val, fuel);
    }
    if access::is_vararg(rt, t) {
        let ta: u32 = access::vararg_elem(rt, t);
        let tb: u32 = access::vararg_num(rt, t);
        let a: u32 = subst(rt, ta, var, val, fuel - 1);
        rt.push_root(a);
        let b: u32 = subst(rt, tb, var, val, fuel - 1);
        rt.pop_roots(1);
        if a == ta && b == tb {
            return t;
        }
        return types::vararg_of(rt, a, b);
    }
    if access::is_datatype(rt, t) && access::parameters_of(rt, t) != NULL {
        let old_params: Vec<u32> = access::svec_vec(rt, access::parameters_of(rt, t));
        let n: usize = old_params.len();
        let super0: u32 = access::supertype(rt, t);
        let name: u32 = access::name_of(rt, t);
        let layout: u32 = access::layout_of(rt, t);
        let size: u32 = access::size_of(rt, t);
        let params: Vec<u32> = subst_list(rt, &old_params, var, val, fuel);
        if same_list(&params, &old_params) {
            rt.pop_roots(n);
            return t;
        }
        let super_: u32 = subst(rt, super0, var, val, fuel - 1);
        rt.push_root(super_);
        let r: u32 = types::apply_inst(rt, name, super_, &params, layout, size);
        let ghost s3 = rt@;
        rt.pop_roots(n);
        rt.pop_roots(1);
        assert(rt@ =~= s3.pop_roots(n + 1));
        return r;
    }
    t
}

/// Whether two lists are equal.
fn same_list(a: &Vec<u32>, b: &Vec<u32>) -> (r: bool)
    ensures
        r == (a@ == b@),
{
    if a.len() != b.len() {
        return false;
    }
    let mut i: usize = 0;
    while i < a.len()
        invariant
            i <= a.len() == b.len(),
            forall|k: int| 0 <= k < i ==> a@[k] == b@[k],
        decreases a.len() - i,
    {
        if a[i] != b[i] {
            return false;
        }
        i = i + 1;
    }
    assert(a@ =~= b@);
    true
}

/// Substitution below a `where`.
#[verifier::rlimit(60)]
fn subst_where(rt: &mut Runtime, t: u32, var: u32, val: u32, fuel: u32) -> (r: u32)
    ensures
        (final(rt)@, r) == old(rt)@.subst_where(t, var, val, fuel as nat),
    decreases fuel, 0nat, 0int,
{
    proof {
        reveal(State::subst);
        reveal(State::subst_where);
    }
    if fuel == 0 {
        return t;
    }
    let v: u32 = access::unionall_var(rt, t);
    let body: u32 = access::unionall_body(rt, t);
    let name: u32 = access::tvar_name(rt, v);
    let lb0: u32 = access::tvar_lb(rt, v);
    let ub0: u32 = access::tvar_ub(rt, v);
    let lb: u32 = subst(rt, lb0, var, val, fuel - 1);
    rt.push_root(lb);
    let ub: u32 = subst(rt, ub0, var, val, fuel - 1);
    rt.push_root(ub);
    if lb == lb0 && ub == ub0 {
        let b: u32 = subst(rt, body, var, val, fuel - 1);
        rt.pop_roots(2);
        if b == body {
            return t;
        }
        return types::unionall_type(rt, v, b);
    }
    let w: u32 = types::typevar(rt, name, lb, ub);
    rt.push_root(w);
    let b1: u32 = subst(rt, body, v, w, fuel - 1);
    rt.push_root(b1);
    let b2: u32 = subst(rt, b1, var, val, fuel - 1);
    rt.pop_roots(4);
    types::unionall_type(rt, w, b2)
}

/// Substitution in a list of parameters; every result is left on the shadow stack.
#[verifier::rlimit(60)]
fn subst_list(rt: &mut Runtime, ts: &Vec<u32>, var: u32, val: u32, fuel: u32) -> (r: Vec<u32>)
    ensures
        (final(rt)@, r@) == old(rt)@.subst_list(ts@, var, val, Seq::empty(), fuel as nat),
    decreases fuel, 0nat, ts.len(),
{
    proof {
        reveal(State::subst);
        reveal(State::subst_list);
    }
    let mut done: Vec<u32> = Vec::new();
    assert(done@ =~= Seq::<u32>::empty());
    if fuel == 0 {
        return done;
    }
    while done.len() < ts.len()
        invariant
            fuel > 0,
            done.len() <= ts.len(),
            old(rt)@.subst_list(ts@, var, val, Seq::empty(), fuel as nat) == rt@.subst_list(
                ts@,
                var,
                val,
                done@,
                fuel as nat,
            ),
        decreases ts.len() - done.len(),
    {
        proof {
            reveal(State::subst);
            reveal(State::subst_list);
        }
        let r: u32 = subst(rt, ts[done.len()], var, val, fuel - 1);
        rt.push_root(r);
        done.push(r);
    }
    done
}

/// The `where` type `u` applied to the type `p`.
pub fn instantiate_unionall(rt: &mut Runtime, u: u32, p: u32) -> (r: u32)
    ensures
        (final(rt)@, r) == old(rt)@.instantiate(u, p),
{
    if !access::is_unionall(rt, u) {
        return u;
    }
    let var: u32 = access::unionall_var(rt, u);
    let body: u32 = access::unionall_body(rt, u);
    let roots: Vec<u32> = vec![u, p];
    assert(roots@ =~= seq![u, p]);
    rt.push_roots(&roots);
    let t: u32 = subst(rt, body, var, p, MAX_NESTING);
    rt.pop_roots(2);
    t
}

/// Applying `T where T` to a type gives that type.
pub proof fn law_instantiate_variable(s: State, u: u32, p: u32)
    requires
        s.is_unionall(u),
        s.unionall_body(u) == s.unionall_var(u),
    ensures
        s.instantiate(u, p) == (s, p),
{
    reveal(State::subst);
    assert(s.push_roots(seq![u, p]).pop_roots(2) =~= s);
}

} // verus!
