//! Structural walks over types, and the canonical order of union members.
//!
//! Every walk is bounded by a nesting depth.

use vstd::prelude::*;
use crate::access;
use crate::access::MAX_NESTING;
use crate::egal::egal_at;
use crate::env::{existential, larger, max_count, Env, EnvV, SavedV, SavedVars, VarBinding};
use crate::id;
use crate::region::NULL;
use crate::state::{Runtime, State};
use crate::symbol;
use crate::value::{unbox_int};
use crate::state::Value;

verus! {

/// How a tuple's last parameter fixes its length.
#[derive(Clone, Copy, PartialEq, Eq, Structural)]
pub enum VarargKind {
    /// Not an open tail.
    Fixed,
    /// Unbounded.
    Unbound,
    /// A ground integer count.
    Int,
    /// A variable count.
    Bound,
}

/// The outcome of a comparison.
#[derive(Clone, Copy, PartialEq, Eq, Structural)]
pub enum Order {
    Before,
    Same,
    After,
}

/// The order of two truth values, true first.
pub open spec fn true_first(a: bool, b: bool) -> Order {
    if a == b {
        Order::Same
    } else if a {
        Order::Before
    } else {
        Order::After
    }
}

/// The lexicographic order of two texts from position `i` on.
pub open spec fn text_order(a: Seq<u8>, b: Seq<u8>, i: int) -> Order
    decreases a.len() - i,
{
    if i < 0 || i >= a.len() {
        if i < b.len() {
            Order::Before
        } else {
            Order::Same
        }
    } else if i >= b.len() {
        Order::After
    } else if a[i] < b[i] {
        Order::Before
    } else if a[i] > b[i] {
        Order::After
    } else {
        text_order(a, b, i + 1)
    }
}

impl State {
    /// Cheap structural equality: never wrongly true.
    pub open spec fn obviously_egal(self, a: u32, b: u32, fuel: nat) -> bool
        decreases fuel,
    {
        if a == b {
            true
        } else if fuel == 0 {
            false
        } else if self.is_datatype(a) && self.is_datatype(b) {
            let pa = self.parameters(a);
            let pb = self.parameters(b);
            &&& self.name_of(a) == self.name_of(b)
            &&& pa != NULL
            &&& pb != NULL
            &&& self.svec_len(pa) == self.svec_len(pb)
            &&& forall|i: int|
                #![trigger self.svec_ref(pa, i)]
                0 <= i < self.svec_len(pa) ==> self.obviously_egal(
                    self.svec_ref(pa, i),
                    self.svec_ref(pb, i),
                    (fuel - 1) as nat,
                )
        } else if (self.is_union(a) && self.is_union(b)) || (self.is_intersect(a)
            && self.is_intersect(b)) {
            self.obviously_egal(self.union_a(a), self.union_a(b), (fuel - 1) as nat)
                && self.obviously_egal(self.union_b(a), self.union_b(b), (fuel - 1) as nat)
        } else if self.is_unionall(a) && self.is_unionall(b) {
            self.unionall_var(a) == self.unionall_var(b) && self.obviously_egal(
                self.unionall_body(a),
                self.unionall_body(b),
                (fuel - 1) as nat,
            )
        } else if self.is_vararg(a) && self.is_vararg(b) {
            self.obviously_egal(self.vararg_elem(a), self.vararg_elem(b), (fuel - 1) as nat) && (
            if self.vararg_num(a) == NULL && self.vararg_num(b) == NULL {
                true
            } else {
                self.vararg_num(a) != NULL && self.vararg_num(b) != NULL && self.egal(
                    self.vararg_num(a),
                    self.vararg_num(b),
                    (fuel - 1) as nat,
                )
            })
        } else if self.is_boxed_long(a) && self.is_boxed_long(b) {
            self.unbox_int(a) == self.unbox_int(b)
        } else {
            false
        }
    }

    /// Whether every member of `x` is obviously a member of `u`.
    pub open spec fn obviously_in_union(self, u: u32, x: u32, fuel: nat) -> bool
        decreases fuel,
    {
        if fuel == 0 {
            false
        } else if self.is_union(x) {
            self.obviously_in_union(u, self.union_a(x), (fuel - 1) as nat)
                && self.obviously_in_union(u, self.union_b(x), (fuel - 1) as nat)
        } else if self.is_union(u) {
            self.obviously_in_union(self.union_a(u), x, (fuel - 1) as nat)
                || self.obviously_in_union(self.union_b(u), x, (fuel - 1) as nat)
        } else {
            self.obviously_egal(u, x, (fuel - 1) as nat)
        }
    }

    /// Whether `t` mentions a variable that is neither bound within `t` nor among
    /// `bound`; with an environment, only its existential variables count.
    pub open spec fn has_free_var(
        self,
        t: u32,
        bound: Seq<u32>,
        e: Option<EnvV>,
        fuel: nat,
    ) -> bool
        decreases fuel,
    {
        if fuel == 0 {
            true
        } else if self.is_typevar(t) {
            !bound.contains(t) && match e {
                Some(env) => existential(env, t),
                None => true,
            }
        } else if self.is_union(t) || self.is_intersect(t) {
            self.has_free_var(self.union_a(t), bound, e, (fuel - 1) as nat) || self.has_free_var(
                self.union_b(t),
                bound,
                e,
                (fuel - 1) as nat,
            )
        } else if self.is_vararg(t) {
            self.has_free_var(self.vararg_elem(t), bound, e, (fuel - 1) as nat) || (
            self.vararg_num(t) != NULL && self.has_free_var(
                self.vararg_num(t),
                bound,
                e,
                (fuel - 1) as nat,
            ))
        } else if self.is_unionall(t) {
            let v = self.unionall_var(t);
            self.has_free_var(self.tvar_lb(v), bound, e, (fuel - 1) as nat) || self.has_free_var(
                self.tvar_ub(v),
                bound,
                e,
                (fuel - 1) as nat,
            ) || self.has_free_var(self.unionall_body(t), bound.push(v), e, (fuel - 1) as nat)
        } else if self.is_datatype(t) {
            let p = self.parameters(t);
            p != NULL && exists|i: int|
                #![trigger self.svec_ref(p, i)]
                0 <= i < self.svec_len(p) && self.has_free_var(
                    self.svec_ref(p, i),
                    bound,
                    e,
                    (fuel - 1) as nat,
                )
        } else {
            false
        }
    }

    /// Whether `t` mentions a variable that is not bound within `t`.
    pub open spec fn has_free_typevars(self, t: u32) -> bool {
        self.has_free_var(t, Seq::empty(), None, MAX_NESTING as nat)
    }

    /// Whether `t` mentions a variable whose binding in `e` is existential.
    pub open spec fn has_existential_typevar(self, t: u32, e: EnvV) -> bool {
        (exists|i: int| 0 <= i < e.vars.len() && (#[trigger] e.vars[i]).existential)
            && self.has_free_var(t, Seq::empty(), Some(e), MAX_NESTING as nat)
    }

    /// Whether `v` is a concrete leaf: `Union{}`, a concrete data type of leaves,
    /// or a value.
    pub open spec fn is_leaf_bound(self, v: u32, fuel: nat) -> bool
        decreases fuel,
    {
        if fuel == 0 {
            false
        } else if v == self.builtin(id::BOTTOM) {
            true
        } else if self.is_intersect(v) {
            false
        } else if self.is_datatype(v) {
            let p = self.parameters(v);
            !self.is_abstract(v) && (p == NULL || forall|i: int|
                #![trigger self.svec_ref(p, i)]
                0 <= i < self.svec_len(p) ==> self.is_leaf_bound(
                    self.svec_ref(p, i),
                    (fuel - 1) as nat,
                ))
        } else {
            !self.is_union(v) && !self.is_unionall(v) && !self.is_typevar(v)
        }
    }

    /// Whether the declared lower bound of `var` is a leaf.
    pub open spec fn is_leaf_typevar(self, var: u32) -> bool {
        self.is_leaf_bound(self.tvar_lb(var), MAX_NESTING as nat)
    }

    /// Whether `var` occurs in `v` under a constructor other than a tuple;
    /// `inside` tells whether `v` itself stands under one.
    pub open spec fn occurs_invariant(self, v: u32, var: u32, inside: bool, fuel: nat) -> bool
        decreases fuel,
    {
        if v == var {
            inside
        } else if fuel == 0 {
            false
        } else if self.is_union(v) {
            self.occurs_invariant(self.union_a(v), var, inside, (fuel - 1) as nat)
                || self.occurs_invariant(self.union_b(v), var, inside, (fuel - 1) as nat)
        } else if self.is_vararg(v) {
            self.occurs_invariant(self.vararg_elem(v), var, inside, (fuel - 1) as nat)
        } else if self.is_unionall(v) {
            let uv = self.unionall_var(v);
            uv != var && (self.occurs_invariant(
                self.tvar_lb(uv),
                var,
                inside,
                (fuel - 1) as nat,
            ) || self.occurs_invariant(self.tvar_ub(uv), var, inside, (fuel - 1) as nat)
                || self.occurs_invariant(self.unionall_body(v), var, inside, (fuel - 1) as nat))
        } else if self.is_datatype(v) {
            let p = self.parameters(v);
            p != NULL && exists|i: int|
                #![trigger self.svec_ref(p, i)]
                0 <= i < self.svec_len(p) && self.occurs_invariant(
                    self.svec_ref(p, i),
                    var,
                    inside || !self.is_tuple(v),
                    (fuel - 1) as nat,
                )
        } else {
            false
        }
    }

    /// How the tuple parameter `t` fixes a length.
    pub open spec fn vararg_kind(self, t: u32) -> VarargKind {
        if !self.is_vararg(t) {
            VarargKind::Fixed
        } else if self.vararg_num(t) == NULL {
            VarargKind::Unbound
        } else if self.is_boxed_long(self.vararg_num(t)) {
            VarargKind::Int
        } else {
            VarargKind::Bound
        }
    }

    /// The body of `t` under all its `where` variables.
    pub open spec fn unwrap_unionall(self, t: u32, fuel: nat) -> u32
        decreases fuel,
    {
        if fuel > 0 && self.is_unionall(t) {
            self.unwrap_unionall(self.unionall_body(t), (fuel - 1) as nat)
        } else {
            t
        }
    }

    /// The members of a union spine.
    pub open spec fn flatten(self, t: u32, fuel: nat) -> Seq<u32>
        decreases fuel,
    {
        if fuel > 0 && self.is_union(t) {
            self.flatten(self.union_a(t), (fuel - 1) as nat) + self.flatten(
                self.union_b(t),
                (fuel - 1) as nat,
            )
        } else {
            seq![t]
        }
    }

    /// The members of the first `n` of several unions.
    pub open spec fn flatten_all(self, parts: Seq<u32>, n: int) -> Seq<u32>
        decreases n,
    {
        if n <= 0 || n > parts.len() {
            Seq::empty()
        } else {
            self.flatten_all(parts, n - 1) + self.flatten(parts[n - 1], MAX_NESTING as nat)
        }
    }

    /// The last parameter of a tuple type, if `x` unwraps to one with parameters.
    pub open spec fn last_param(self, x: u32) -> Option<u32> {
        let p = self.parameters(x);
        if p == NULL || self.svec_len(p) == 0 {
            None
        } else {
            Some(self.svec_ref(p, self.svec_len(p) - 1))
        }
    }

    /// Whether `x` is a tuple type with an unbounded tail.
    pub open spec fn is_indefinite_tuple(self, x: u32) -> bool {
        let y = self.unwrap_unionall(x, MAX_NESTING as nat);
        self.is_datatype(y) && self.is_tuple(y) && match self.last_param(y) {
            Some(p) => self.vararg_kind(p) == VarargKind::Unbound,
            None => false,
        }
    }

    /// Whether `x` is a tuple type of fixed length; a variable is judged by its
    /// declared upper bound.
    pub open spec fn is_definite_tuple(self, x: u32) -> bool {
        let z = if self.is_typevar(x) {
            self.tvar_ub(x)
        } else {
            x
        };
        let y = self.unwrap_unionall(z, MAX_NESTING as nat);
        self.is_datatype(y) && self.is_tuple(y) && match self.last_param(y) {
            Some(p) => self.vararg_kind(p) == VarargKind::Fixed || self.vararg_kind(p)
                == VarargKind::Int,
            None => true,
        }
    }

    /// Whether `t` is a type or a type variable.
    pub open spec fn is_type_or_typevar(self, t: u32) -> bool {
        self.is_datatype(t) || self.is_union(t) || self.is_unionall(t) || self.is_typevar(t)
    }

    /// The order of two types by their names, then the number of their parameters,
    /// then their parameters; data types come before anything else.
    pub open spec fn name_order(self, a: u32, b: u32, fuel: nat) -> Order
        decreases fuel, 0nat,
    {
        if fuel == 0 {
            Order::Same
        } else if !self.is_datatype(a) || !self.is_datatype(b) {
            true_first(self.is_datatype(a), self.is_datatype(b))
        } else {
            let o = text_order(
                self.sym_text(self.type_sym(a)),
                self.sym_text(self.type_sym(b)),
                0,
            );
            let pa = self.svec_seq(self.parameters(a));
            let pb = self.svec_seq(self.parameters(b));
            if o != Order::Same {
                o
            } else if pa.len() < pb.len() {
                Order::Before
            } else if pa.len() > pb.len() {
                Order::After
            } else {
                self.params_order(pa, pb, pa.len(), (fuel - 1) as nat)
            }
        }
    }

    /// The order of the last `n` of two equally long parameter lists.
    pub open spec fn params_order(self, pa: Seq<u32>, pb: Seq<u32>, n: nat, fuel: nat) -> Order
        decreases fuel, n + 1,
    {
        if n == 0 || n > pa.len() || n > pb.len() {
            Order::Same
        } else {
            let o = self.name_order(pa[pa.len() - n], pb[pb.len() - n], fuel);
            if o != Order::Same {
                o
            } else {
                self.params_order(pa, pb, (n - 1) as nat, fuel)
            }
        }
    }

    /// The canonical order of union members: singleton data types, then plain-bits
    /// data types, then other data types, then anything else; ties by name.
    pub open spec fn type_order(self, a: u32, b: u32) -> Order {
        let fuel = MAX_NESTING as nat;
        if self.is_datatype(a) != self.is_datatype(b) {
            true_first(self.is_datatype(a), self.is_datatype(b))
        } else if !self.is_datatype(a) {
            self.name_order(self.unwrap_unionall(a, fuel), self.unwrap_unionall(b, fuel), fuel)
        } else if (self.instance_of(a) != NULL) != (self.instance_of(b) != NULL) {
            true_first(self.instance_of(a) != NULL, self.instance_of(b) != NULL)
        } else if self.instance_of(a) == NULL && self.is_bits(a, fuel) != self.is_bits(b, fuel) {
            true_first(self.is_bits(a, fuel), self.is_bits(b, fuel))
        } else {
            self.name_order(a, b, fuel)
        }
    }

    /// The sorted list `xs` with `x` inserted after its equals.
    pub open spec fn insert_sorted(self, xs: Seq<u32>, x: u32) -> Seq<u32>
        decreases xs.len(),
    {
        if xs.len() == 0 {
            seq![x]
        } else if self.type_order(x, xs.last()) == Order::Before {
            self.insert_sorted(xs.drop_last(), x).push(xs.last())
        } else {
            xs.push(x)
        }
    }

    /// The first `n` of `xs` in canonical order.
    pub open spec fn sorted(self, xs: Seq<u32>, n: int) -> Seq<u32>
        decreases n,
    {
        if n <= 0 || n > xs.len() {
            Seq::empty()
        } else {
            self.insert_sorted(self.sorted(xs, n - 1), xs[n - 1])
        }
    }

    /// Whether the search left every existential binding as the snapshot has it,
    /// and made no variable diagonal.
    pub open spec fn env_unchanged(self, e: EnvV, old: SavedV) -> bool {
        forall|i: int|
            0 <= i < e.vars.len() && i < old.vars.len() ==> self.binding_unchanged(
                #[trigger] e.vars[i],
                old.vars[i],
            )
    }

    /// Whether a binding is as its snapshot.
    pub open spec fn binding_unchanged(self, v: VarBinding, o: VarBinding) -> bool {
        !v.existential || (v.lb == o.lb && v.ub == o.ub && !(self.is_leaf_typevar(v.var)
            && !v.body_occurs_inv && larger(v.occurs_cov, v.cov_diag) > 1 && larger(
            o.occurs_cov,
            o.cov_diag,
        ) <= 1))
    }
}

/// `xs` without elements equal to their predecessor.
pub open spec fn dedup(xs: Seq<u32>) -> Seq<u32>
    decreases xs.len(),
{
    if xs.len() <= 1 {
        xs
    } else if xs[xs.len() - 2] == xs.last() {
        dedup(xs.drop_last())
    } else {
        dedup(xs.drop_last()).push(xs.last())
    }
}

/// Cheap structural equality.
pub fn obviously_egal(rt: &Runtime, a: u32, b: u32, fuel: u32) -> (r: bool)
    ensures
        r == rt@.obviously_egal(a, b, fuel as nat),
    decreases fuel,
{
    if a == b {
        return true;
    }
    if fuel == 0 {
        return false;
    }
    if access::is_datatype(rt, a) && access::is_datatype(rt, b) {
        if access::name_of(rt, a) != access::name_of(rt, b) {
            return false;
        }
        let pa: u32 = access::parameters_of(rt, a);
        let pb: u32 = access::parameters_of(rt, b);
        if pa == NULL || pb == NULL {
            return false;
        }
        let n: u32 = access::svec_len(rt, pa);
        if n != access::svec_len(rt, pb) {
            return false;
        }
        let mut i: u32 = 0;
        while i < n
            invariant
                i <= n,
                a != b,
                fuel > 0,
                rt@.is_datatype(a),
                rt@.is_datatype(b),
                rt@.name_of(a) == rt@.name_of(b),
                pa == rt@.parameters(a),
                pb == rt@.parameters(b),
                pa != NULL,
                pb != NULL,
                n == rt@.svec_len(pa),
                n == rt@.svec_len(pb),
                forall|k: int|
                    #![trigger rt@.svec_ref(pa, k)]
                    0 <= k < i ==> rt@.obviously_egal(
                        rt@.svec_ref(pa, k),
                        rt@.svec_ref(pb, k),
                        (fuel - 1) as nat,
                    ),
            decreases n - i,
        {
            if !obviously_egal(
                rt,
                access::svec_ref(rt, pa, i),
                access::svec_ref(rt, pb, i),
                fuel - 1,
            ) {
                return false;
            }
            i = i + 1;
        }
        return true;
    }
    if (access::is_union(rt, a) && access::is_union(rt, b)) || (access::is_intersect(rt, a)
        && access::is_intersect(rt, b)) {
        return obviously_egal(rt, access::union_a(rt, a), access::union_a(rt, b), fuel - 1)
            && obviously_egal(rt, access::union_b(rt, a), access::union_b(rt, b), fuel - 1);
    }
    if access::is_unionall(rt, a) && access::is_unionall(rt, b) {
        return access::unionall_var(rt, a) == access::unionall_var(rt, b) && obviously_egal(
            rt,
            access::unionall_body(rt, a),
            access::unionall_body(rt, b),
            fuel - 1,
        );
    }
    if access::is_vararg(rt, a) && access::is_vararg(rt, b) {
        if !obviously_egal(rt, access::vararg_elem(rt, a), access::vararg_elem(rt, b), fuel - 1) {
            return false;
        }
        let na: u32 = access::vararg_num(rt, a);
        let nb: u32 = access::vararg_num(rt, b);
        if na == NULL && nb == NULL {
            return true;
        }
        return na != NULL && nb != NULL && egal_at(rt, na, nb, fuel - 1);
    }
    if access::is_boxed_long(rt, a) && access::is_boxed_long(rt, b) {
        return unbox_int(rt, Value(a)) == unbox_int(rt, Value(b));
    }
    false
}

/// Whether every member of `x` is obviously a member of `u`.
pub fn obviously_in_union(rt: &Runtime, u: u32, x: u32, fuel: u32) -> (r: bool)
    ensures
        r == rt@.obviously_in_union(u, x, fuel as nat),
    decreases fuel,
{
    if fuel == 0 {
        return false;
    }
    if access::is_union(rt, x) {
        return obviously_in_union(rt, u, access::union_a(rt, x), fuel - 1) && obviously_in_union(
            rt,
            u,
            access::union_b(rt, x),
            fuel - 1,
        );
    }
    if access::is_union(rt, u) {
        return obviously_in_union(rt, access::union_a(rt, u), x, fuel - 1) || obviously_in_union(
            rt,
            access::union_b(rt, u),
            x,
            fuel - 1,
        );
    }
    obviously_egal(rt, u, x, fuel - 1)
}

/// Whether a list holds `x`.
fn holds(v: &Vec<u32>, x: u32) -> (r: bool)
    ensures
        r == v@.contains(x),
{
    let mut i: usize = 0;
    while i < v.len()
        invariant
            i <= v.len(),
            forall|k: int| 0 <= k < i ==> v@[k] != x,
        decreases v.len() - i,
    {
        if v[i] == x {
            return true;
        }
        i = i + 1;
    }
    false
}

/// The picture of an optional environment.
pub open spec fn opt_env(e: Option<&Env>) -> Option<EnvV> {
    match e {
        Some(x) => Some(x@),
        None => None,
    }
}

fn has_free_var(
    rt: &Runtime,
    t: u32,
    bound: &mut Vec<u32>,
    e: Option<&Env>,
    fuel: u32,
) -> (r: bool)
    ensures
        r == rt@.has_free_var(t, old(bound)@, opt_env(e), fuel as nat),
        final(bound)@ == old(bound)@,
    decreases fuel,
{
    if fuel == 0 {
        return true;
    }
    if access::is_typevar(rt, t) {
        return !holds(bound, t) && match e {
            Some(env) => env.is_existential(t),
            None => true,
        };
    }
    if access::is_union(rt, t) || access::is_intersect(rt, t) {
        return has_free_var(rt, access::union_a(rt, t), bound, e, fuel - 1) || has_free_var(
            rt,
            access::union_b(rt, t),
            bound,
            e,
            fuel - 1,
        );
    }
    if access::is_vararg(rt, t) {
        if has_free_var(rt, access::vararg_elem(rt, t), bound, e, fuel - 1) {
            return true;
        }
        let n: u32 = access::vararg_num(rt, t);
        return n != NULL && has_free_var(rt, n, bound, e, fuel - 1);
    }
    if access::is_unionall(rt, t) {
        let v: u32 = access::unionall_var(rt, t);
        if has_free_var(rt, access::tvar_lb(rt, v), bound, e, fuel - 1) || has_free_var(
            rt,
            access::tvar_ub(rt, v),
            bound,
            e,
            fuel - 1,
        ) {
            return true;
        }
        bound.push(v);
        let r: bool = has_free_var(rt, access::unionall_body(rt, t), bound, e, fuel - 1);
        bound.pop();
        assert(bound@ =~= old(bound)@);
        return r;
    }
    if access::is_datatype(rt, t) {
        let p: u32 = access::parameters_of(rt, t);
        if p == NULL {
            return false;
        }
        let n: u32 = access::svec_len(rt, p);
        let mut i: u32 = 0;
        while i < n
            invariant
                i <= n,
                fuel > 0,
                !rt@.is_typevar(t),
                !rt@.is_union(t),
                !rt@.is_intersect(t),
                !rt@.is_vararg(t),
                !rt@.is_unionall(t),
                rt@.is_datatype(t),
                p == rt@.parameters(t),
                p != NULL,
                n == rt@.svec_len(p),
                bound@ == old(bound)@,
                forall|k: int|
                    #![trigger rt@.svec_ref(p, k)]
                    0 <= k < i ==> !rt@.has_free_var(
                        rt@.svec_ref(p, k),
                        bound@,
                        opt_env(e),
                        (fuel - 1) as nat,
                    ),
            decreases n - i,
        {
            if has_free_var(rt, access::svec_ref(rt, p, i), bound, e, fuel - 1) {
                return true;
            }
            i = i + 1;
        }
        return false;
    }
    false
}

/// Whether `t` mentions a variable that is not bound within `t`.
pub fn has_free_typevars(rt: &Runtime, t: u32) -> (r: bool)
    ensures
        r == rt@.has_free_typevars(t),
{
    let mut bound: Vec<u32> = Vec::new();
    has_free_var(rt, t, &mut bound, None, MAX_NESTING)
}

/// Whether `t` mentions a variable whose binding is existential.
pub fn has_existential_typevar(rt: &Runtime, t: u32, e: &Env) -> (r: bool)
    ensures
        r == rt@.has_existential_typevar(t, e@),
{
    let mut i: usize = 0;
    let mut any: bool = false;
    while i < e.vars.len()
        invariant
            i <= e.vars.len(),
            any == (exists|k: int| 0 <= k < i && (#[trigger] e@.vars[k]).existential),
        decreases e.vars.len() - i,
    {
        assert(e.vars@[i as int] == e@.vars[i as int]);
        if e.vars[i].existential {
            any = true;
        }
        i = i + 1;
    }
    if !any {
        return false;
    }
    let mut bound: Vec<u32> = Vec::new();
    has_free_var(rt, t, &mut bound, Some(e), MAX_NESTING)
}

/// Whether `v` is a concrete leaf.
pub fn is_leaf_bound(rt: &Runtime, v: u32, fuel: u32) -> (r: bool)
    ensures
        r == rt@.is_leaf_bound(v, fuel as nat),
    decreases fuel,
{
    if fuel == 0 {
        return false;
    }
    if v == access::builtin(rt, id::BOTTOM) {
        return true;
    }
    if access::is_intersect(rt, v) {
        return false;
    }
    if access::is_datatype(rt, v) {
        if access::is_abstract(rt, v) {
            return false;
        }
        let p: u32 = access::parameters_of(rt, v);
        if p == NULL {
            return true;
        }
        let n: u32 = access::svec_len(rt, p);
        let mut i: u32 = 0;
        while i < n
            invariant
                i <= n,
                fuel > 0,
                v != rt@.builtin(id::BOTTOM),
                !rt@.is_intersect(v),
                rt@.is_datatype(v),
                !rt@.is_abstract(v),
                p == rt@.parameters(v),
                p != NULL,
                n == rt@.svec_len(p),
                forall|k: int|
                    #![trigger rt@.svec_ref(p, k)]
                    0 <= k < i ==> rt@.is_leaf_bound(rt@.svec_ref(p, k), (fuel - 1) as nat),
            decreases n - i,
        {
            if !is_leaf_bound(rt, access::svec_ref(rt, p, i), fuel - 1) {
                return false;
            }
            i = i + 1;
        }
        return true;
    }
    !access::is_union(rt, v) && !access::is_unionall(rt, v) && !access::is_typevar(rt, v)
}

/// Whether the declared lower bound of `var` is a leaf.
pub fn is_leaf_typevar(rt: &Runtime, var: u32) -> (r: bool)
    ensures
        r == rt@.is_leaf_typevar(var),
{
    is_leaf_bound(rt, access::tvar_lb(rt, var), MAX_NESTING)
}

/// Whether `var` occurs in `v` in invariant position.
pub fn var_occurs_invariant(rt: &Runtime, v: u32, var: u32, inside: bool, fuel: u32) -> (r: bool)
    ensures
        r == rt@.occurs_invariant(v, var, inside, fuel as nat),
    decreases fuel,
{
    if v == var {
        return inside;
    }
    if fuel == 0 {
        return false;
    }
    if access::is_union(rt, v) {
        return var_occurs_invariant(rt, access::union_a(rt, v), var, inside, fuel - 1)
            || var_occurs_invariant(rt, access::union_b(rt, v), var, inside, fuel - 1);
    }
    if access::is_vararg(rt, v) {
        return var_occurs_invariant(rt, access::vararg_elem(rt, v), var, inside, fuel - 1);
    }
    if access::is_unionall(rt, v) {
        let uv: u32 = access::unionall_var(rt, v);
        if uv == var {
            return false;
        }
        if var_occurs_invariant(rt, access::tvar_lb(rt, uv), var, inside, fuel - 1)
            || var_occurs_invariant(rt, access::tvar_ub(rt, uv), var, inside, fuel - 1) {
            return true;
        }
        return var_occurs_invariant(rt, access::unionall_body(rt, v), var, inside, fuel - 1);
    }
    if access::is_datatype(rt, v) {
        let p: u32 = access::parameters_of(rt, v);
        if p == NULL {
            return false;
        }
        let under: bool = inside || !access::is_tuple(rt, v);
        let n: u32 = access::svec_len(rt, p);
        let mut i: u32 = 0;
        while i < n
            invariant
                i <= n,
                fuel > 0,
                v != var,
                !rt@.is_union(v),
                !rt@.is_vararg(v),
                !rt@.is_unionall(v),
                rt@.is_datatype(v),
                p == rt@.parameters(v),
                p != NULL,
                n == rt@.svec_len(p),
                under == (inside || !rt@.is_tuple(v)),
                forall|k: int|
                    #![trigger rt@.svec_ref(p, k)]
                    0 <= k < i ==> !rt@.occurs_invariant(
                        rt@.svec_ref(p, k),
                        var,
                        under,
                        (fuel - 1) as nat,
                    ),
            decreases n - i,
        {
            if var_occurs_invariant(rt, access::svec_ref(rt, p, i), var, under, fuel - 1) {
                return true;
            }
            i = i + 1;
        }
        return false;
    }
    false
}

/// How the tuple parameter `t` fixes a length.
pub fn vararg_kind(rt: &Runtime, t: u32) -> (r: VarargKind)
    ensures
        r == rt@.vararg_kind(t),
{
    if !access::is_vararg(rt, t) {
        return VarargKind::Fixed;
    }
    let n: u32 = access::vararg_num(rt, t);
    if n == NULL {
        VarargKind::Unbound
    } else if access::is_boxed_long(rt, n) {
        VarargKind::Int
    } else {
        VarargKind::Bound
    }
}

/// The body of `t` under all its `where` variables.
pub fn unwrap_unionall(rt: &Runtime, t: u32, fuel: u32) -> (r: u32)
    ensures
        r == rt@.unwrap_unionall(t, fuel as nat),
    decreases fuel,
{
    if fuel > 0 && access::is_unionall(rt, t) {
        unwrap_unionall(rt, access::unionall_body(rt, t), fuel - 1)
    } else {
        t
    }
}

/// Appends the members of a union spine to `out`.
pub fn flatten_union(rt: &Runtime, t: u32, out: &mut Vec<u32>, fuel: u32)
    ensures
        final(out)@ == old(out)@ + rt@.flatten(t, fuel as nat),
    decreases fuel,
{
    if fuel > 0 && access::is_union(rt, t) {
        flatten_union(rt, access::union_a(rt, t), out, fuel - 1);
        flatten_union(rt, access::union_b(rt, t), out, fuel - 1);
    } else {
        out.push(t);
    }
    assert(out@ =~= old(out)@ + rt@.flatten(t, fuel as nat));
}

/// The members of several unions.
pub fn flatten_all(rt: &Runtime, parts: &Vec<u32>) -> (r: Vec<u32>)
    ensures
        r@ == rt@.flatten_all(parts@, parts.len() as int),
{
    let mut r: Vec<u32> = Vec::new();
    let mut i: usize = 0;
    assert(r@ =~= rt@.flatten_all(parts@, 0));
    while i < parts.len()
        invariant
            i <= parts.len(),
            r@ == rt@.flatten_all(parts@, i as int),
        decreases parts.len() - i,
    {
        flatten_union(rt, parts[i], &mut r, MAX_NESTING);
        i = i + 1;
    }
    r
}

/// The last parameter of the data type `x`.
fn last_param(rt: &Runtime, x: u32) -> (r: Option<u32>)
    ensures
        r == rt@.last_param(x),
{
    let p: u32 = access::parameters_of(rt, x);
    if p == NULL {
        return None;
    }
    let n: u32 = access::svec_len(rt, p);
    if n == 0 {
        None
    } else {
        Some(access::svec_ref(rt, p, n - 1))
    }
}

/// Whether `x` is a tuple type with an unbounded tail.
pub fn is_indefinite_length_tuple(rt: &Runtime, x: u32) -> (r: bool)
    ensures
        r == rt@.is_indefinite_tuple(x),
{
    let y: u32 = unwrap_unionall(rt, x, MAX_NESTING);
    if !access::is_datatype(rt, y) || !access::is_tuple(rt, y) {
        return false;
    }
    match last_param(rt, y) {
        Some(p) => vararg_kind(rt, p) == VarargKind::Unbound,
        None => false,
    }
}

/// Whether `x` is a tuple type of fixed length.
pub fn is_definite_length_tuple(rt: &Runtime, x: u32) -> (r: bool)
    ensures
        r == rt@.is_definite_tuple(x),
{
    let z: u32 = if access::is_typevar(rt, x) {
        access::tvar_ub(rt, x)
    } else {
        x
    };
    let y: u32 = unwrap_unionall(rt, z, MAX_NESTING);
    if !access::is_datatype(rt, y) || !access::is_tuple(rt, y) {
        return false;
    }
    match last_param(rt, y) {
        Some(p) => {
            let k: VarargKind = vararg_kind(rt, p);
            k == VarargKind::Fixed || k == VarargKind::Int
        },
        None => true,
    }
}

/// Whether `t` is a type or a type variable.
pub fn is_type_or_typevar(rt: &Runtime, t: u32) -> (r: bool)
    ensures
        r == rt@.is_type_or_typevar(t),
{
    access::is_datatype(rt, t) || access::is_union(rt, t) || access::is_unionall(rt, t)
        || access::is_typevar(rt, t)
}

/// Compares two truth values, true first.
fn order_bools(a: bool, b: bool) -> (r: Order)
    ensures
        r == true_first(a, b),
{
    if a == b {
        Order::Same
    } else if a {
        Order::Before
    } else {
        Order::After
    }
}

/// Compares two texts.
fn order_texts(a: &Vec<u8>, b: &Vec<u8>) -> (r: Order)
    ensures
        r == text_order(a@, b@, 0),
{
    let mut i: usize = 0;
    while i < a.len() && i < b.len()
        invariant
            i <= a.len(),
            i <= b.len(),
            text_order(a@, b@, 0) == text_order(a@, b@, i as int),
        decreases a.len() - i,
    {
        if a[i] < b[i] {
            return Order::Before;
        }
        if a[i] > b[i] {
            return Order::After;
        }
        i = i + 1;
    }
    if i < a.len() {
        Order::After
    } else if i < b.len() {
        Order::Before
    } else {
        Order::Same
    }
}

/// Compares two types by name and parameters.
fn order_names(rt: &Runtime, a: u32, b: u32, fuel: u32) -> (r: Order)
    ensures
        r == rt@.name_order(a, b, fuel as nat),
    decreases fuel,
{
    if fuel == 0 {
        return Order::Same;
    }
    if !access::is_datatype(rt, a) || !access::is_datatype(rt, b) {
        return order_bools(access::is_datatype(rt, a), access::is_datatype(rt, b));
    }
    let ta: Vec<u8> = symbol::as_str(rt, access::type_sym(rt, a));
    let tb: Vec<u8> = symbol::as_str(rt, access::type_sym(rt, b));
    let o: Order = order_texts(&ta, &tb);
    if o != Order::Same {
        return o;
    }
    let pa: Vec<u32> = access::svec_vec(rt, access::parameters_of(rt, a));
    let pb: Vec<u32> = access::svec_vec(rt, access::parameters_of(rt, b));
    if pa.len() < pb.len() {
        return Order::Before;
    }
    if pa.len() > pb.len() {
        return Order::After;
    }
    let n: usize = pa.len();
    let mut i: usize = 0;
    let ghost want = rt@.params_order(pa@, pb@, n as nat, (fuel - 1) as nat);
    while i < n
        invariant
            i <= n,
            fuel > 0,
            n == pa.len(),
            n == pb.len(),
            want == rt@.params_order(pa@, pb@, (n - i) as nat, (fuel - 1) as nat),
            want == rt@.name_order(a, b, fuel as nat),
        decreases n - i,
    {
        let o2: Order = order_names(rt, pa[i], pb[i], fuel - 1);
        if o2 != Order::Same {
            return o2;
        }
        i = i + 1;
    }
    Order::Same
}

/// Compares two union members.
pub fn order_types(rt: &Runtime, a: u32, b: u32) -> (r: Order)
    ensures
        r == rt@.type_order(a, b),
{
    let da: bool = access::is_datatype(rt, a);
    let db: bool = access::is_datatype(rt, b);
    if da != db {
        return order_bools(da, db);
    }
    if !da {
        return order_names(
            rt,
            unwrap_unionall(rt, a, MAX_NESTING),
            unwrap_unionall(rt, b, MAX_NESTING),
            MAX_NESTING,
        );
    }
    let sa: bool = access::instance_of(rt, a) != NULL;
    let sb: bool = access::instance_of(rt, b) != NULL;
    if sa != sb {
        return order_bools(sa, sb);
    }
    if !sa {
        let ba: bool = access::is_bits(rt, a, MAX_NESTING);
        let bb: bool = access::is_bits(rt, b, MAX_NESTING);
        if ba != bb {
            return order_bools(ba, bb);
        }
    }
    order_names(rt, a, b, MAX_NESTING)
}

/// Inserts `x` into a sorted list after its equals.
fn insert_sorted(rt: &Runtime, xs: &mut Vec<u32>, x: u32)
    ensures
        final(xs)@ == rt@.insert_sorted(old(xs)@, x),
    decreases old(xs).len(),
{
    let n: usize = xs.len();
    if n == 0 {
        xs.push(x);
        assert(xs@ =~= rt@.insert_sorted(old(xs)@, x));
        return;
    }
    let last: u32 = xs[n - 1];
    if order_types(rt, x, last) == Order::Before {
        xs.pop();
        assert(xs@ =~= old(xs)@.drop_last());
        insert_sorted(rt, xs, x);
        xs.push(last);
    } else {
        xs.push(x);
    }
}

/// A list in canonical order.
pub fn sort_types(rt: &Runtime, xs: &Vec<u32>) -> (r: Vec<u32>)
    ensures
        r@ == rt@.sorted(xs@, xs.len() as int),
{
    let mut r: Vec<u32> = Vec::new();
    let mut i: usize = 0;
    assert(r@ =~= rt@.sorted(xs@, 0));
    while i < xs.len()
        invariant
            i <= xs.len(),
            r@ == rt@.sorted(xs@, i as int),
        decreases xs.len() - i,
    {
        insert_sorted(rt, &mut r, xs[i]);
        i = i + 1;
    }
    r
}

/// A list without elements equal to their predecessor.
pub fn dedup_list(xs: &Vec<u32>) -> (r: Vec<u32>)
    ensures
        r@ == dedup(xs@),
{
    let mut r: Vec<u32> = Vec::new();
    let mut i: usize = 0;
    assert(r@ =~= dedup(xs@.take(0)));
    while i < xs.len()
        invariant
            i <= xs.len(),
            r@ == dedup(xs@.take(i as int)),
        decreases xs.len() - i,
    {
        let ghost t = xs@.take(i + 1);
        assert(t.drop_last() =~= xs@.take(i as int));
        assert(t.last() == xs@[i as int]);
        if i == 0 || xs[i - 1] != xs[i] {
            r.push(xs[i]);
            assert(i == 0 ==> r@ =~= dedup(t));
        }
        i = i + 1;
    }
    assert(xs@.take(xs.len() as int) =~= xs@);
    r
}

/// Whether the search left every existential binding as the snapshot has it.
pub fn env_unchanged(rt: &Runtime, e: &Env, old_vars: &SavedVars) -> (r: bool)
    ensures
        r == rt@.env_unchanged(e@, old_vars@),
{
    let mut i: usize = 0;
    while i < e.vars.len() && i < old_vars.vars.len()
        invariant
            i <= e.vars.len(),
            i <= old_vars.vars.len(),
            forall|k: int|
                0 <= k < i ==> rt@.binding_unchanged(
                    #[trigger] e@.vars[k],
                    old_vars@.vars[k],
                ),
        decreases e.vars.len() - i,
    {
        let v: VarBinding = e.vars[i];
        let o: VarBinding = old_vars.vars[i];
        assert(e@.vars[i as int] == v);
        if v.existential {
            if v.lb != o.lb || v.ub != o.ub {
                return false;
            }
            if is_leaf_typevar(rt, v.var) && !v.body_occurs_inv && max_count(
                v.occurs_cov,
                v.cov_diag,
            ) > 1 && max_count(o.occurs_cov, o.cov_diag) <= 1 {
                return false;
            }
        }
        i = i + 1;
    }
    true
}

} // verus!
