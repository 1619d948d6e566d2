//! What the subtype engine decides.
//!
//! A query walks both types at once. Every union met is resolved to one arm by a
//! recorded decision, and two nested enumerations re-run the walk: for every
//! combination of left arms there must be a combination of right arms that
//! succeeds. A variable entered on the left stands for all its values, one
//! entered on the right for some value; its bounds narrow as the walk goes on.
//! A variable that occurs more than once, and only covariantly, takes concrete
//! values only.
//!
//! The walk is bounded: queries nested deeper than the fuel, and enumerations of
//! more than [`MAX_PASSES`] passes, are answered in the negative.

use vstd::prelude::*;
use crate::access::MAX_NESTING;
use crate::bytes::utf8;
use crate::env::{
    existential, larger, negate, shift_depth, EnvV, Param, Q, SavedV, UnionV, VarBinding,
};
use crate::id;
use crate::intrinsics::wrap;
use crate::region::NULL;
use crate::state::State;
use crate::typewalk::{dedup, VarargKind};

verus! {

/// The number of passes up to which an enumeration runs: more than any machine makes.
pub const MAX_PASSES: u64 = 0x4000_0000_0000_0000;

/// The state of the slow nested enumeration.
#[verifier::ext_equal]
pub struct SlowV {
    pub se: SavedV,
    pub limited: bool,
    pub ini_count: u32,
    pub latest: Option<UnionV>,
    pub count: u32,
}

/// The bindings' covariant counts.
pub open spec fn cov_counts(vars: Seq<VarBinding>) -> Seq<i8> {
    vars.map_values(|b: VarBinding| b.occurs_cov)
}

/// The bindings with the covariant counts cleared; with `forall_only`, those of
/// existential variables stay.
pub open spec fn clear_cov(vars: Seq<VarBinding>, forall_only: bool) -> Seq<VarBinding> {
    vars.map_values(
        |b: VarBinding|
            if forall_only && b.existential {
                b
            } else {
                VarBinding { occurs_cov: 0i8, ..b }
            },
    )
}

/// The bindings with the counts of a closed scope folded in and the `saved` counts
/// restored.
pub open spec fn fold_cov(
    vars: Seq<VarBinding>,
    saved: Seq<i8>,
    forall_only: bool,
) -> Seq<VarBinding> {
    Seq::new(
        vars.len(),
        |i: int|
            if i >= saved.len() || (forall_only && vars[i].existential) {
                vars[i]
            } else {
                VarBinding {
                    cov_diag: larger(vars[i].cov_diag, vars[i].occurs_cov),
                    occurs_cov: saved[i],
                    ..vars[i]
                }
            },
    )
}

impl EnvV {
    pub open spec fn lb_at(self, i: int) -> u32 {
        if 0 <= i < self.vars.len() {
            self.vars[i].lb
        } else {
            NULL
        }
    }

    pub open spec fn ub_at(self, i: int) -> u32 {
        if 0 <= i < self.vars.len() {
            self.vars[i].ub
        } else {
            NULL
        }
    }

    /// The environment with the variable of binding `i` marked concrete.
    pub open spec fn mark_concrete(self, i: int) -> EnvV {
        if 0 <= i < self.vars.len() {
            self.with_var(i, VarBinding { concrete: true, ..self.vars[i] })
        } else {
            self
        }
    }

    /// The environment with the variable of binding `i` marked an integer.
    pub open spec fn mark_integer(self, i: int) -> EnvV {
        if 0 <= i < self.vars.len() {
            self.with_var(i, VarBinding { intvalued: true, ..self.vars[i] })
        } else {
            self
        }
    }

    /// The environment with the length offset of binding `i` set.
    pub open spec fn with_max_offset(self, i: int, m: i8) -> EnvV {
        if 0 <= i < self.vars.len() {
            self.with_var(i, VarBinding { max_offset: m, ..self.vars[i] })
        } else {
            self
        }
    }

    /// The environment without its innermost binding.
    pub open spec fn pop_var(self) -> EnvV {
        if self.vars.len() > 0 {
            EnvV { vars: self.vars.drop_last(), ..self }
        } else {
            self
        }
    }

    pub open spec fn with_depth(self, k: int) -> EnvV {
        EnvV { invdepth: shift_depth(self.invdepth, k), ..self }
    }

    pub open spec fn with_loffset(self, k: i32) -> EnvV {
        EnvV { loffset: k, ..self }
    }

    pub open spec fn with_rmore(self, k: usize) -> EnvV {
        EnvV { r: UnionV { more: k, ..self.r }, ..self }
    }
}

impl Q {
    pub open spec fn with_env(self, e: EnvV) -> Q {
        Q { e, ..self }
    }

    pub open spec fn with_state(self, s: State) -> Q {
        Q { s, ..self }
    }

    /// Whether two boxed integers are equal, the left one offset.
    pub open spec fn longs_equal(self, a: u32, b: u32) -> bool {
        self.s.unbox_int(a) == self.s.unbox_int(b) + self.e.loffset
    }

    /// Whether a variable on the right takes a whole ground union on the left.
    pub open spec fn takes_union(self, y: u32) -> bool {
        match self.e.find(y) {
            Some(i) => !self.e.vars[i].existential || !self.s.has_existential_typevar(
                self.e.vars[i].ub,
                self.e,
            ),
            None => true,
        }
    }

    /// `x <: y`: the fast paths, and unions on the left.
    #[verifier::opaque]
    pub open spec fn sub(self, x: u32, y: u32, param: Param, fuel: nat) -> (Q, bool)
        decreases fuel, 5nat, 0nat,
    {
        if x == y && self.e.loffset == 0 {
            (self, true)
        } else if fuel == 0 {
            (self, false)
        } else if self.s.is_union(x) {
            if self.s.obviously_egal(x, y, MAX_NESTING as nat) {
                (self, true)
            } else if self.e.r.depth == 0 && self.s.is_typevar(y) && !self.s.has_free_typevars(x)
                && self.takes_union(y) {
                self.sub_var(y, x, true, param, (fuel - 1) as nat)
            } else {
                let (q, x1) = self.pick_element(x, false, MAX_NESTING as nat);
                q.sub_right(x1, y, param, fuel)
            }
        } else {
            self.sub_right(x, y, param, fuel)
        }
    }

    /// `x <: y`: unions on the right.
    #[verifier::opaque]
    pub open spec fn sub_right(self, x: u32, y: u32, param: Param, fuel: nat) -> (Q, bool)
        decreases fuel, 4nat, 0nat,
    {
        if fuel == 0 {
            (self, false)
        } else if !self.s.is_union(y) {
            self.sub_vars(x, y, param, fuel)
        } else if self.s.obviously_in_union(y, x, MAX_NESTING as nat) {
            (self, true)
        } else if self.s.is_unionall(x) {
            self.sub_unionall(y, x, false, param, (fuel - 1) as nat)
        } else if self.s.is_typevar(x) && !existential(self.e, x) && !self.s.has_free_typevars(
            y,
        ) {
            self.sub_vars(x, y, param, fuel)
        } else {
            let (q, split) = if self.s.is_typevar(x) {
                self.pick(true)
            } else {
                (self, true)
            };
            if split {
                let (q1, y1) = q.pick_element(y, true, MAX_NESTING as nat);
                q1.sub_vars(x, y1, param, fuel)
            } else {
                q.sub_vars(x, y, param, fuel)
            }
        }
    }

    /// Whether the variable `x` opens the `where` type `y` at once.
    pub open spec fn opens(self, x: u32, y: u32) -> bool {
        match self.e.find(x) {
            Some(i) => !self.e.vars[i].existential && self.e.vars[i].ub != y,
            None => x != y,
        }
    }

    /// `x <: y`: meets on the right, and variables.
    #[verifier::opaque]
    pub open spec fn sub_vars(self, x: u32, y: u32, param: Param, fuel: nat) -> (Q, bool)
        decreases fuel, 3nat, 0nat,
    {
        if fuel == 0 {
            (self, false)
        } else if self.s.is_intersect(y) {
            let (q, ok) = self.sub(x, self.s.union_a(y), param, (fuel - 1) as nat);
            if ok {
                q.sub(x, q.s.union_b(y), param, (fuel - 1) as nat)
            } else {
                (q, false)
            }
        } else if self.s.is_typevar(x) {
            if self.s.is_typevar(y) {
                self.two_vars(x, y, param, (fuel - 1) as nat)
            } else if self.s.is_unionall(y) && self.opens(x, y) {
                self.sub_unionall(x, y, true, param, (fuel - 1) as nat)
            } else {
                self.sub_var(x, y, false, param, (fuel - 1) as nat)
            }
        } else if self.s.is_typevar(y) {
            self.sub_var(y, x, true, param, (fuel - 1) as nat)
        } else {
            self.sub_ground(x, y, param, fuel)
        }
    }

    /// `x <: y`: neither is a union or a variable.
    #[verifier::opaque]
    pub open spec fn sub_ground(self, x: u32, y: u32, param: Param, fuel: nat) -> (Q, bool)
        decreases fuel, 2nat, 0nat,
    {
        let s = self.s;
        if fuel == 0 {
            (self, false)
        } else if y == s.builtin(id::ANY) || x == s.builtin(id::BOTTOM) {
            (self, true)
        } else if s.is_unionall(x) {
            self.sub_unionall(y, x, false, param, (fuel - 1) as nat)
        } else if s.is_unionall(y) {
            self.sub_unionall(x, y, true, param, (fuel - 1) as nat)
        } else if s.is_type_type(x) && !s.is_type_type(y) {
            let t0 = s.svec_ref(s.parameters(x), 0);
            if s.is_typevar(t0) {
                self.sub(s.builtin(id::TYPE), y, param, (fuel - 1) as nat)
            } else {
                self.sub(s.tag(t0), y, param, (fuel - 1) as nat)
            }
        } else if s.is_type_type(y) && !s.is_type_type(x) {
            if s.is_typevar(s.svec_ref(s.parameters(y), 0)) && s.is_kind(x) {
                self.sub_kind(y, param, (fuel - 1) as nat)
            } else {
                (self, false)
            }
        } else if s.is_boxed_long(x) || s.is_boxed_long(y) {
            (self, s.is_boxed_long(x) && s.is_boxed_long(y) && self.longs_equal(x, y))
        } else {
            self.sub_datatype(x, y, param, (fuel - 1) as nat)
        }
    }

    /// A kind below `Type{T}` over a variable: every instance of a kind is a type.
    #[verifier::opaque]
    pub open spec fn sub_kind(self, y: u32, param: Param, fuel: nat) -> (Q, bool)
        decreases fuel, 6nat, 0nat,
    {
        if fuel == 0 {
            (self, false)
        } else {
            let (s1, v) = self.s.make_typevar(
                utf8("T"),
                self.s.builtin(id::BOTTOM),
                self.s.builtin(id::ANY),
            );
            let (s2, tt) = s1.push_root(v).type_type(v);
            let (s3, ua) = s2.push_root(tt).unionall_type(v, tt);
            let (q, ok) = self.with_state(s3.push_root(ua)).sub(ua, y, param, (fuel - 1) as nat);
            (q.with_state(q.s.pop_roots(3)), ok)
        }
    }

    /// Enters the variable of the `where` type `u` and relates its body to `t`;
    /// `r` tells that `u` stands on the right.
    #[verifier::opaque]
    pub open spec fn sub_unionall(
        self,
        t: u32,
        u: u32,
        r: bool,
        param: Param,
        fuel: nat,
    ) -> (Q, bool)
        decreases fuel, 6nat, 0nat,
    {
        if fuel == 0 {
            (self, false)
        } else {
            let var = self.s.unionall_var(u);
            let body = self.s.unionall_body(u);
            let lb = self.s.tvar_lb(var);
            let ub = self.s.tvar_ub(var);
            let idx = self.e.vars.len() as int;
            let b = VarBinding {
                var,
                lb,
                ub,
                existential: r,
                occurs_cov: 0i8,
                cov_diag: 0i8,
                occurs_inv: 0i8,
                body_occurs_inv: self.s.occurs_invariant(body, var, false, MAX_NESTING as nat),
                depth0: self.e.invdepth,
                intvalued: false,
                concrete: false,
                max_offset: 0i8,
                root_base: self.s.roots.len() as usize,
            };
            let q = Q {
                s: self.s.push_roots(seq![lb, ub]),
                e: EnvV { vars: self.e.vars.push(b), ..self.e },
            };
            let (q1, ok) = if r {
                q.sub(t, body, param, (fuel - 1) as nat)
            } else {
                q.sub(body, t, param, (fuel - 1) as nat)
            };
            let (q2, ok2) = q1.diagonal(idx, var, ok);
            let q3 = if ok2 && q2.s.is_intersect(q2.e.ub_at(idx)) {
                let (s, w) = q2.s.widen(q2.e.ub_at(idx), (fuel - 1) as nat);
                q2.with_state(s).set_ub(idx, w)
            } else {
                q2
            };
            (Q { s: q3.s.pop_roots(2), e: q3.e.pop_var() }, ok2)
        }
    }

    /// The diagonal rule for binding `idx` of the variable `var`.
    pub open spec fn diagonal(self, idx: int, var: u32, ok: bool) -> (Q, bool) {
        if !(0 <= idx < self.e.vars.len()) || !ok {
            (self, ok)
        } else {
            let b = self.e.vars[idx];
            let diag = larger(b.occurs_cov, b.cov_diag) > 1 && !b.body_occurs_inv;
            if !(b.concrete || (diag && self.s.is_leaf_typevar(var))) {
                (self, true)
            } else if b.concrete && !diag && !self.s.is_leaf_bound(b.ub, MAX_NESTING as nat) {
                (self, false)
            } else if self.s.is_typevar(b.lb) {
                match self.e.find(b.lb) {
                    Some(j) => (self.with_env(self.e.mark_concrete(j)), true),
                    None => (self, true),
                }
            } else {
                (self, self.s.is_leaf_bound(b.lb, MAX_NESTING as nat))
            }
        }
    }

    /// Relates the variable `b` to the type `a`: `a <: b` if `r`, else `b <: a`.
    #[verifier::opaque]
    pub open spec fn sub_var(
        self,
        b: u32,
        a: u32,
        r: bool,
        param: Param,
        fuel: nat,
    ) -> (Q, bool)
        decreases fuel, 6nat, 0nat,
    {
        if fuel == 0 {
            (self, false)
        } else if self.e.loffset != 0 && self.s.is_boxed_long(a) {
            let k = if r {
                negate(self.e.loffset)
            } else {
                self.e.loffset
            };
            let (s1, na) = self.s.box_int(wrap(self.s.unbox_int(a) + k));
            let q = Q { s: s1.push_root(na), e: self.e.with_loffset(0) };
            let (q1, ok) = q.sub_var(b, na, r, param, (fuel - 1) as nat);
            (
                Q {
                    s: q1.s.pop_roots(1),
                    e: q1.e.with_loffset(
                        if r {
                            negate(k)
                        } else {
                            k
                        },
                    ),
                },
                ok,
            )
        } else {
            match self.e.find(b) {
                Some(i) => if r {
                    self.var_gt(a, i, param, (fuel - 1) as nat)
                } else {
                    self.var_lt(a, i, param, (fuel - 1) as nat)
                },
                None => if r {
                    self.sub(a, self.s.tvar_lb(b), param, (fuel - 1) as nat)
                } else {
                    self.sub(self.s.tvar_ub(b), a, param, (fuel - 1) as nat)
                },
            }
        }
    }

    /// `x <: y` where one side is the expanded bound of a universal variable.
    #[verifier::opaque]
    pub open spec fn sub_left_var(self, x: u32, y: u32, param: Param, fuel: nat) -> (Q, bool)
        decreases fuel, 6nat, 0nat,
    {
        if fuel == 0 {
            (self, false)
        } else if self.s.is_boxed_long(x) && self.s.is_boxed_long(y) {
            (self, self.longs_equal(x, y))
        } else if x == y && !self.s.is_unionall(y) {
            (self, true)
        } else if x == self.s.builtin(id::BOTTOM) || y == self.s.builtin(id::ANY) {
            (self, true)
        } else if self.s.is_union(x) && self.s.obviously_egal(x, y, MAX_NESTING as nat) {
            (self, true)
        } else if x == self.s.builtin(id::ANY) && self.s.is_datatype(y) {
            (self, false)
        } else {
            self.sub(x, y, param, (fuel - 1) as nat)
        }
    }

    /// Whether a nonzero length offset keeps a variable from absorbing `a`.
    pub open spec fn offset_blocks(self, a: u32) -> bool {
        self.e.loffset != 0 && !self.s.is_typevar(a) && a != self.s.builtin(id::BOTTOM) && a
            != self.s.builtin(id::ANY)
    }

    /// Runs a comparison of an expanded bound in its own scope of occurrences.
    #[verifier::opaque]
    pub open spec fn in_forall_scope(
        self,
        x: u32,
        y: u32,
        param: Param,
        fuel: nat,
    ) -> (Q, bool)
        decreases fuel, 6nat, 0nat,
    {
        if fuel == 0 {
            (self, false)
        } else {
            let saved = cov_counts(self.e.vars);
            let q = self.with_env(EnvV { vars: clear_cov(self.e.vars, true), ..self.e });
            let (q1, ok) = q.sub_left_var(x, y, param, (fuel - 1) as nat);
            (q1.with_env(EnvV { vars: fold_cov(q1.e.vars, saved, true), ..q1.e }), ok)
        }
    }

    /// Constrains the variable of binding `idx` from above by `a`.
    #[verifier::opaque]
    pub open spec fn var_lt(self, a: u32, idx: int, param: Param, fuel: nat) -> (Q, bool)
        decreases fuel, 6nat, 0nat,
    {
        if fuel == 0 || !(0 <= idx < self.e.vars.len()) {
            (self, false)
        } else {
            let q = self.record(idx, param);
            let b = q.e.vars[idx];
            if q.offset_blocks(a) {
                (q, false)
            } else if !b.existential {
                q.in_forall_scope(b.ub, a, param, (fuel - 1) as nat)
            } else if b.ub == a {
                (q, true)
            } else {
                let (q1, ok) = q.ccheck(b.lb, a, (fuel - 1) as nat);
                if ok {
                    let (s, m) = q1.s.meet(q1.e.ub_at(idx), a, 1, (fuel - 1) as nat);
                    (q1.with_state(s).set_ub(idx, m), true)
                } else {
                    (q1, false)
                }
            }
        }
    }

    /// Constrains the variable of binding `idx` from below by `a`.
    #[verifier::opaque]
    pub open spec fn var_gt(self, a: u32, idx: int, param: Param, fuel: nat) -> (Q, bool)
        decreases fuel, 6nat, 0nat,
    {
        if fuel == 0 || !(0 <= idx < self.e.vars.len()) {
            (self, false)
        } else {
            let q = self.record(idx, param);
            let b = q.e.vars[idx];
            if q.offset_blocks(a) {
                (q, false)
            } else if !b.existential {
                q.in_forall_scope(a, b.lb, param, (fuel - 1) as nat)
            } else if b.lb == a {
                (q, true)
            } else {
                let (q1, ok) = q.ccheck(a, b.ub, (fuel - 1) as nat);
                if ok {
                    let (s, j) = q1.s.join(q1.e.lb_at(idx), a, (fuel - 1) as nat);
                    (q1.with_state(s).set_lb(idx, j), true)
                } else {
                    (q1, false)
                }
            }
        }
    }

    /// Checks that bounds are consistent, in a scope of occurrences of its own.
    #[verifier::opaque]
    pub open spec fn ccheck(self, a: u32, b: u32, fuel: nat) -> (Q, bool)
        decreases fuel, 6nat, 0nat,
    {
        if fuel == 0 {
            (self, false)
        } else if self.s.is_boxed_long(a) && self.s.is_boxed_long(b) {
            (self, self.longs_equal(a, b))
        } else if a == b || a == self.s.builtin(id::BOTTOM) || b == self.s.builtin(id::ANY) {
            (self, true)
        } else if a == self.s.builtin(id::ANY) && self.s.is_datatype(b) {
            (self, false)
        } else if self.s.obviously_in_union(b, a, MAX_NESTING as nat) {
            (self, true)
        } else {
            let old_l = self.e.l.saved();
            let saved = cov_counts(self.e.vars);
            let q = self.with_env(EnvV { vars: clear_cov(self.e.vars, false), ..self.e });
            let (q1, ok) = q.local(a, b, Param::Top, 1, (fuel - 1) as nat);
            (
                q1.with_env(
                    EnvV {
                        vars: fold_cov(q1.e.vars, saved, false),
                        l: q1.e.l.restored(old_l),
                        ..q1.e
                    },
                ),
                ok,
            )
        }
    }

    /// `x <: y` for two variables.
    #[verifier::opaque]
    pub open spec fn two_vars(self, x: u32, y: u32, param: Param, fuel: nat) -> (Q, bool)
        decreases fuel, 6nat, 0nat,
    {
        if fuel == 0 {
            (self, false)
        } else if x == y {
            (self, true)
        } else {
            let xi = self.e.find(x);
            let yi = self.e.find(y);
            let xr = existential(self.e, x);
            let yr = existential(self.e, y);
            if xi is None && yi is None {
                (self, false)
            } else if xr {
                let i = xi->Some_0;
                if yr && i < yi->Some_0 {
                    self.record(i, param).var_gt(x, yi->Some_0, param, (fuel - 1) as nat)
                } else {
                    match yi {
                        Some(j) => self.record(j, param).var_lt(y, i, param, (fuel - 1) as nat),
                        None => self.var_lt(y, i, param, (fuel - 1) as nat),
                    }
                }
            } else if yr {
                let j = yi->Some_0;
                match xi {
                    Some(i) => {
                        let q = self.record(i, param);
                        if q.e.vars[j].depth0 < q.e.vars[i].depth0 {
                            q.var_gt(q.e.vars[i].ub, j, param, (fuel - 1) as nat)
                        } else {
                            q.var_gt(x, j, param, (fuel - 1) as nat)
                        }
                    },
                    None => self.var_gt(x, j, param, (fuel - 1) as nat),
                }
            } else {
                let xub = match xi {
                    Some(i) => self.e.vars[i].ub,
                    None => self.s.tvar_ub(x),
                };
                let ylb = match yi {
                    Some(j) => self.e.vars[j].lb,
                    None => self.s.tvar_lb(y),
                };
                let (q, ok) = self.sub(xub, y, param, (fuel - 1) as nat);
                if ok {
                    (q, true)
                } else {
                    q.sub(x, ylb, param, (fuel - 1) as nat)
                }
            }
        }
    }

    /// Equates the length `n` with the length of the tuple tail `v`.
    #[verifier::opaque]
    pub open spec fn check_length(self, v: u32, n: i64, fuel: nat) -> (Q, bool)
        decreases fuel, 6nat, 0nat,
    {
        let num = self.s.vararg_num(v);
        if fuel == 0 {
            (self, false)
        } else if num == NULL {
            (self, true)
        } else {
            let (s1, boxed) = self.s.box_int(n);
            let q = Q { s: s1.push_root(boxed), e: self.e.with_depth(1) };
            let (q1, ok) = q.sub(boxed, num, Param::Invariant, (fuel - 1) as nat);
            let (q2, ok2) = if ok {
                q1.sub(num, boxed, Param::Top, (fuel - 1) as nat)
            } else {
                (q1, false)
            };
            (Q { s: q2.s.pop_roots(1), e: q2.e.with_depth(-1) }, ok2)
        }
    }

    /// `x <: y` for data types: the supertype of `x` with the name of `y`, then
    /// covariant tuple elements or invariant parameters.
    #[verifier::opaque]
    pub open spec fn sub_datatype(self, x: u32, y: u32, param: Param, fuel: nat) -> (Q, bool)
        decreases fuel, 6nat, 0nat,
    {
        if fuel == 0 {
            (self, false)
        } else if x == y || y == self.s.builtin(id::ANY) {
            (self, true)
        } else {
            match self.s.super_named(x, self.s.name_of(y), MAX_NESTING as nat) {
                None => (self, false),
                Some(xd) => if self.s.is_tuple(xd) {
                    self.sub_tuple(
                        xd,
                        y,
                        if param == Param::Top {
                            Param::Covariant
                        } else {
                            param
                        },
                        (fuel - 1) as nat,
                    )
                } else {
                    let px = self.s.parameters(xd);
                    let py = self.s.parameters(y);
                    if px == NULL || py == NULL {
                        (self, true)
                    } else {
                        let q = self.with_env(self.e.with_depth(1));
                        let (q1, ok) = q.params_equal(
                            px,
                            py,
                            self.s.svec_len(px) as nat,
                            self.s.svec_len(px) as nat,
                            (fuel - 1) as nat,
                        );
                        (q1.with_env(q1.e.with_depth(-1)), ok)
                    }
                },
            }
        }
    }

    /// Equality of the last `k` of `n` invariant parameters.
    #[verifier::opaque]
    pub open spec fn params_equal(self, px: u32, py: u32, n: nat, k: nat, fuel: nat) -> (Q, bool)
        decreases fuel, 1nat, k,
    {
        if fuel == 0 {
            (self, false)
        } else if k == 0 || k > n {
            (self, true)
        } else {
            let xi = self.s.svec_ref(px, n - k);
            let yi = self.s.svec_ref(py, n - k);
            let (q, ok) = if xi == yi {
                (self, true)
            } else {
                self.equal(xi, yi, (fuel - 1) as nat)
            };
            if ok {
                q.params_equal(px, py, n, (k - 1) as nat, fuel)
            } else {
                (q, false)
            }
        }
    }

    /// The integer that fixes the length of a tuple tail, less one.
    pub open spec fn tail_count(self, va: u32, kind: VarargKind, b: Option<int>) -> int {
        if kind == VarargKind::Int {
            self.s.unbox_int(self.s.vararg_num(va)) - 1
        } else {
            match b {
                Some(i) => self.s.unbox_int(self.e.vars[i].lb) - 1,
                None => 0,
            }
        }
    }

    /// `x <: y` for tuple types.
    #[verifier::opaque]
    pub open spec fn sub_tuple(self, x: u32, y: u32, param: Param, fuel: nat) -> (Q, bool)
        decreases fuel, 6nat, 0nat,
    {
        let s = self.s;
        let px = s.parameters(x);
        let py = s.parameters(y);
        let lx = s.svec_seq(px).len() as int;
        let ly = s.svec_seq(py).len() as int;
        let xva = if lx > 0 {
            s.svec_ref(px, lx - 1)
        } else {
            NULL
        };
        let yva = if ly > 0 {
            s.svec_ref(py, ly - 1)
        } else {
            NULL
        };
        let kx = if lx > 0 {
            s.vararg_kind(xva)
        } else {
            VarargKind::Fixed
        };
        let ky = if ly > 0 {
            s.vararg_kind(yva)
        } else {
            VarargKind::Fixed
        };
        let xb = if kx == VarargKind::Bound {
            self.e.find(s.vararg_num(xva))
        } else {
            None
        };
        let pinned = match xb {
            Some(i) => s.is_boxed_long(self.e.vars[i].lb),
            None => false,
        };
        let y_fixed = ky == VarargKind::Fixed || ky == VarargKind::Int;
        if fuel == 0 {
            (self, false)
        } else if lx == 0 && ly == 0 {
            (self, true)
        } else if kx != VarargKind::Fixed && kx != VarargKind::Int && !pinned {
            if kx == VarargKind::Unbound || (xb is Some && !self.e.vars[xb->Some_0].existential) {
                if y_fixed || lx < ly {
                    (self, false)
                } else {
                    self.sub_tail_start(px, py, lx, ly, param, (fuel - 1) as nat)
                }
            } else if ky == VarargKind::Fixed {
                let (q, ok) = self.check_length(xva, (ly + 1 - lx) as i64, (fuel - 1) as nat);
                if ok {
                    q.sub_tail_start(px, py, lx, ly, param, (fuel - 1) as nat)
                } else {
                    (q, false)
                }
            } else {
                self.sub_tail_start(px, py, lx, ly, param, (fuel - 1) as nat)
            }
        } else {
            let nx = lx + self.tail_count(xva, kx, xb);
            let ny = if ky == VarargKind::Int {
                ly + s.unbox_int(s.vararg_num(yva)) - 1
            } else if ky != VarargKind::Fixed {
                ly - 1
            } else {
                ly
            };
            if (y_fixed && nx != ny) || (!y_fixed && ny > nx) {
                (self, false)
            } else {
                self.sub_tail_start(px, py, lx, ly, param, (fuel - 1) as nat)
            }
        }
    }

    /// The elementwise walk of two tuples, from their first elements.
    pub open spec fn sub_tail_start(
        self,
        px: u32,
        py: u32,
        lx: int,
        ly: int,
        param: Param,
        fuel: nat,
    ) -> (Q, bool)
        decreases fuel, 2nat, 0nat,
    {
        self.sub_tail(px, py, lx, ly, 0, 0, 0, 0, NULL, NULL, param, fuel)
    }

    /// The elementwise walk of two tuples; `vx` and `vy` count how far each side
    /// has gone into its tail.
    #[verifier::opaque]
    pub open spec fn sub_tail(
        self,
        px: u32,
        py: u32,
        lx: int,
        ly: int,
        i: int,
        j: int,
        vx0: nat,
        vy0: nat,
        xi0: u32,
        yi0: u32,
        param: Param,
        fuel: nat,
    ) -> (Q, bool)
        decreases fuel, 1nat, (if i < lx { lx - i } else { 0 }) + (if j < ly { ly - j } else { 0 }),
    {
        let xi = if i < lx {
            self.s.svec_ref(px, i)
        } else {
            xi0
        };
        let vx = if i == lx - 1 && (vx0 > 0 || self.s.is_vararg(xi)) {
            vx0 + 1nat
        } else {
            vx0
        };
        let yi = if j < ly {
            self.s.svec_ref(py, j)
        } else {
            yi0
        };
        let vy = if j == ly - 1 && (vy0 > 0 || self.s.is_vararg(yi)) {
            vy0 + 1nat
        } else {
            vy0
        };
        if fuel == 0 {
            (self, false)
        } else if i >= lx {
            self.sub_tail_end(lx, ly, vx as int, vy as int, yi, (fuel - 1) as nat)
        } else if vx > 0 && vy > 0 {
            self.sub_varargs(xi, yi, vx as int, vy as int, param, (fuel - 1) as nat)
        } else if vy == 1 && self.s.vararg_elem(yi) == self.s.builtin(id::ANY) {
            let xlast = self.s.svec_ref(px, lx - 1);
            if self.s.is_vararg(xlast) {
                self.sub_varargs(xlast, yi, 1, vy + (lx - i - 1), param, (fuel - 1) as nat)
            } else {
                self.sub_tail_end(lx, ly, vx as int, vy as int, yi, (fuel - 1) as nat)
            }
        } else if j >= ly {
            (self, vx > 0)
        } else {
            let xe = if vx > 0 {
                self.s.vararg_elem(xi)
            } else {
                xi
            };
            let ye = if vy > 0 {
                self.s.vararg_elem(yi)
            } else {
                yi
            };
            let (q, ok) = self.sub(xe, ye, param, (fuel - 1) as nat);
            let i1 = if i < lx - 1 || vx == 0 {
                i + 1
            } else {
                i
            };
            let j1 = if j < ly - 1 || vy == 0 {
                j + 1
            } else {
                j
            };
            if ok {
                q.sub_tail(px, py, lx, ly, i1, j1, vx, vy, xi, yi, param, fuel)
            } else {
                (q, false)
            }
        }
    }

    /// The end of the elementwise walk: a pending tail takes what is left.
    #[verifier::opaque]
    pub open spec fn sub_tail_end(
        self,
        lx: int,
        ly: int,
        vx: int,
        vy: int,
        yi: u32,
        fuel: nat,
    ) -> (Q, bool)
        decreases fuel, 6nat, 0nat,
    {
        if fuel == 0 {
            (self, false)
        } else if vy > 0 && vx == 0 && lx + 1 >= ly {
            self.check_length(yi, (lx + 1 - ly) as i64, (fuel - 1) as nat)
        } else {
            (self, true)
        }
    }

    /// The binding of a tail's length, if it is a bound variable.
    pub open spec fn length_binding(self, num: u32) -> Option<int> {
        if num != NULL && self.s.is_typevar(num) {
            self.e.find(num)
        } else {
            None
        }
    }

    /// `Vararg{S,N} <: Vararg{T,M}` after `vx` and `vy` elements were consumed.
    #[verifier::opaque]
    pub open spec fn sub_varargs(
        self,
        vtx: u32,
        vty: u32,
        vx: int,
        vy: int,
        param: Param,
        fuel: nat,
    ) -> (Q, bool)
        decreases fuel, 6nat, 0nat,
    {
        let xp0 = self.s.vararg_elem(vtx);
        let xp1 = self.s.vararg_num(vtx);
        let yp0 = self.s.vararg_elem(vty);
        let yp1 = self.s.vararg_num(vty);
        let xlv = self.length_binding(xp1);
        let ylv = self.length_binding(yp1);
        let mx = match xlv {
            Some(i) => self.e.vars[i].max_offset,
            None => 0i8,
        };
        let my = match ylv {
            Some(i) => self.e.vars[i].max_offset,
            None => 0i8,
        };
        let xl = match xlv {
            Some(i) => self.e.vars[i].lb,
            None => xp1,
        };
        let yl = match ylv {
            Some(i) => self.e.vars[i].lb,
            None => yp1,
        };
        let exhausted = xp1 != NULL && self.s.is_boxed_long(xl) && self.s.unbox_int(xl) + 1 == vx;
        let y_long = yl != NULL && self.s.is_boxed_long(yl);
        if fuel == 0 {
            (self, false)
        } else if xp1 == NULL && y_long {
            (self, false)
        } else if exhausted && y_long {
            (self, self.s.unbox_int(yl) + 1 == vy)
        } else if exhausted && yl == NULL {
            self.equate_lengths(xp1, yp1, vx, vy, xlv, ylv, mx, my, (fuel - 1) as nat)
        } else {
            let (q1, ok1) = self.sub(xp0, yp0, param, (fuel - 1) as nat);
            if !ok1 {
                (q1, false)
            } else {
                let (q2, ok2) = q1.sub(xp0, yp0, Param::Covariant, (fuel - 1) as nat);
                if !ok2 {
                    (q2, false)
                } else {
                    q2.equate_lengths(xp1, yp1, vx, vy, xlv, ylv, mx, my, (fuel - 1) as nat)
                }
            }
        }
    }

    /// The length equation of two tails.
    #[verifier::opaque]
    pub open spec fn equate_lengths(
        self,
        xp1: u32,
        yp1: u32,
        vx: int,
        vy: int,
        xlv: Option<int>,
        ylv: Option<int>,
        mx: i8,
        my: i8,
        fuel: nat,
    ) -> (Q, bool)
        decreases fuel, 6nat, 0nat,
    {
        if fuel == 0 {
            (self, false)
        } else if yp1 == NULL {
            (self, true)
        } else if xp1 == NULL {
            self.free_length(yp1, my, (fuel - 1) as nat)
        } else {
            let e1 = self.e.with_depth(1);
            let bx = if self.s.is_typevar(xp1) {
                e1.find(xp1)
            } else {
                None
            };
            let by = if self.s.is_typevar(yp1) {
                e1.find(yp1)
            } else {
                None
            };
            let e2 = match bx {
                Some(i) => e1.mark_integer(i),
                None => e1,
            };
            let xn = match bx {
                Some(i) => if self.s.is_boxed_long(e2.lb_at(i)) {
                    e2.lb_at(i)
                } else {
                    xp1
                },
                None => xp1,
            };
            let e3 = match by {
                Some(i) => e2.mark_integer(i),
                None => e2,
            };
            let yn = match by {
                Some(i) => if self.s.is_boxed_long(e3.lb_at(i)) {
                    e3.lb_at(i)
                } else {
                    yp1
                },
                None => yp1,
            };
            let q = self.with_env(e3);
            let (q1, ok) = if self.s.is_boxed_long(xn) && self.s.is_boxed_long(yn) {
                (q, self.s.unbox_int(xn) - vx == self.s.unbox_int(yn) - vy)
            } else {
                q.equate_offsets(xn, yn, vx, vy, (fuel - 1) as nat)
            };
            let e4 = match ylv {
                Some(i) => q1.e.with_max_offset(i, my),
                None => q1.e,
            };
            let e5 = match xlv {
                Some(i) => e4.with_max_offset(i, mx),
                None => e4,
            };
            (q1.with_env(e5.with_depth(-1)), ok)
        }
    }

    /// An unconstrained length on the left against the length `yp1`.
    #[verifier::opaque]
    pub open spec fn free_length(self, yp1: u32, my: i8, fuel: nat) -> (Q, bool)
        decreases fuel, 6nat, 0nat,
    {
        let b = if self.s.is_typevar(yp1) {
            self.e.find(yp1)
        } else {
            None
        };
        let yl = match b {
            Some(i) => self.e.vars[i].lb,
            None => yp1,
        };
        let touched = match b {
            Some(i) => self.e.vars[i].depth0 != self.e.invdepth || self.e.vars[i].lb
                != self.s.builtin(id::BOTTOM) || self.e.vars[i].ub != self.s.builtin(id::ANY),
            None => false,
        };
        if fuel == 0 || self.s.is_boxed_long(yl) || touched {
            (self, false)
        } else {
            let e1 = match b {
                Some(i) => self.e.mark_integer(i),
                None => self.e,
            };
            let (q, ok) = self.with_env(e1.with_depth(1)).sub(
                self.s.builtin(id::ANY),
                yp1,
                Param::Invariant,
                (fuel - 1) as nat,
            );
            let e2 = match b {
                Some(i) => q.e.with_max_offset(i, my),
                None => q.e,
            };
            (q.with_env(e2.with_depth(-1)), ok)
        }
    }

    /// The length equation of two tails that are not both ground: the count
    /// difference is folded into a ground side, or carried as an offset.
    #[verifier::opaque]
    pub open spec fn equate_offsets(
        self,
        xn: u32,
        yn: u32,
        vx: int,
        vy: int,
        fuel: nat,
    ) -> (Q, bool)
        decreases fuel, 6nat, 0nat,
    {
        if fuel == 0 {
            (self, false)
        } else if vx != vy && (self.s.is_boxed_long(xn) || self.s.is_boxed_long(yn)) {
            let left = self.s.is_boxed_long(xn);
            let (s1, b) = self.s.box_int(
                if left {
                    wrap(self.s.unbox_int(xn) + vy - vx)
                } else {
                    wrap(self.s.unbox_int(yn) + vx - vy)
                },
            );
            let q = Q { s: s1.push_root(b), e: self.e.with_loffset(0) };
            let (q1, ok) = if left {
                q.equal(b, yn, (fuel - 1) as nat)
            } else {
                q.equal(xn, b, (fuel - 1) as nat)
            };
            (Q { s: q1.s.pop_roots(1), e: q1.e.with_loffset(0) }, ok)
        } else {
            let q = self.with_env(
                self.e.with_loffset(
                    if -0x8000_0000 <= vx - vy <= 0x7fff_ffff {
                        (vx - vy) as i32
                    } else {
                        0i32
                    },
                ),
            );
            let (q1, ok) = q.equal(xn, yn, (fuel - 1) as nat);
            (q1.with_env(q1.e.with_loffset(0)), ok)
        }
    }

    /// Invariant equality of two type parameters.
    #[verifier::opaque]
    pub open spec fn equal(self, x: u32, y: u32, fuel: nat) -> (Q, bool)
        decreases fuel, 6nat, 0nat,
    {
        let s = self.s;
        if fuel == 0 {
            (self, false)
        } else if s.obviously_egal(x, y, MAX_NESTING as nat) {
            (self, self.e.loffset == 0)
        } else if (s.is_indefinite_tuple(x) && s.is_definite_tuple(y)) || (s.is_definite_tuple(x)
            && s.is_indefinite_tuple(y)) {
            (self, false)
        } else if s.is_datatype(x) && s.is_datatype(y) && s.name_of(x) != s.name_of(y) {
            (self, false)
        } else if s.is_datatype(x) && s.is_datatype(y) && !s.is_tuple(x) {
            self.sub(x, y, Param::Invariant, (fuel - 1) as nat)
        } else if s.is_union(x) && s.is_union(y) {
            let (q, general) = self.pick(true);
            if general {
                q.equal_slow(x, y, (fuel - 1) as nat)
            } else {
                let (q1, ok) = q.equal(s.union_a(x), s.union_a(y), (fuel - 1) as nat);
                if ok {
                    q1.equal(q1.s.union_b(x), q1.s.union_b(y), (fuel - 1) as nat)
                } else {
                    (q1, false)
                }
            }
        } else if self.e.loffset == 0 && s.is_typevar(y) && !s.is_typevar(x) && !s.is_boxed_long(
            x,
        ) {
            self.equal_var(y, x, (fuel - 1) as nat)
        } else {
            self.equal_slow(x, y, (fuel - 1) as nat)
        }
    }

    /// Invariant equality by subtyping in both directions.
    #[verifier::opaque]
    pub open spec fn equal_slow(self, x: u32, y: u32, fuel: nat) -> (Q, bool)
        decreases fuel, 6nat, 0nat,
    {
        if fuel == 0 {
            (self, false)
        } else {
            let old_l = self.e.l.saved();
            let (q1, ok) = self.local(x, y, Param::Invariant, 2, (fuel - 1) as nat);
            let (q2, ok2) = if ok {
                let (q, b) = q1.with_env(q1.e.with_loffset(negate(q1.e.loffset))).local(
                    y,
                    x,
                    Param::Top,
                    0,
                    (fuel - 1) as nat,
                );
                (q.with_env(q.e.with_loffset(negate(q.e.loffset))), b)
            } else {
                (q1, false)
            };
            (q2.with_env(EnvV { l: q2.e.l.restored(old_l), ..q2.e }), ok2)
        }
    }

    /// Equality of the variable `v` with the type `x`.
    #[verifier::opaque]
    pub open spec fn equal_var(self, v: u32, x: u32, fuel: nat) -> (Q, bool)
        decreases fuel, 6nat, 0nat,
    {
        if fuel == 0 {
            (self, false)
        } else {
            match self.e.find(v) {
                None => (self, x == v),
                Some(idx) => {
                    let q = self.record(idx, Param::Invariant);
                    let b = q.e.vars[idx];
                    if !b.existential {
                        let (q1, ok) = q.local(
                            x,
                            b.lb,
                            Param::Invariant,
                            if q.s.has_free_typevars(x) {
                                0
                            } else {
                                1
                            },
                            (fuel - 1) as nat,
                        );
                        if ok {
                            q1.local(b.ub, x, Param::Top, 0, (fuel - 1) as nat)
                        } else {
                            (q1, false)
                        }
                    } else if b.lb == x {
                        q.var_lt(x, idx, Param::Top, (fuel - 1) as nat)
                    } else {
                        let (q1, ok) = q.ccheck(x, b.ub, (fuel - 1) as nat);
                        if !ok {
                            (q1, false)
                        } else {
                            let (s2, j) = q1.s.join(q1.e.lb_at(idx), x, (fuel - 1) as nat);
                            let q2 = q1.with_state(s2).set_lb(idx, j);
                            if q2.e.ub_at(idx) == x {
                                (q2, true)
                            } else {
                                let (q3, ok3) = q2.ccheck(q2.e.lb_at(idx), x, (fuel - 1) as nat);
                                if ok3 {
                                    (q3.set_ub(idx, x), true)
                                } else {
                                    (q3, false)
                                }
                            }
                        }
                    }
                },
            }
        }
    }

    /// Whether `x` is an existential variable.
    pub open spec fn is_existential_typevar(self, x: u32) -> bool {
        self.s.is_typevar(x) && existential(self.e, x)
    }

    /// A query nested in a larger one. The limit is off (0), on (1), or on when
    /// either side is ground (2).
    #[verifier::opaque]
    pub open spec fn local(
        self,
        x: u32,
        y: u32,
        param: Param,
        limit: int,
        fuel: nat,
    ) -> (Q, bool)
        decreases fuel, 6nat, 0nat,
    {
        let kx = !self.s.has_free_typevars(x);
        let ky = !self.s.has_free_typevars(y);
        if fuel == 0 {
            (self, false)
        } else if self.s.obviously_in_union(y, x, MAX_NESTING as nat) {
            (self, true)
        } else if kx && ky {
            let (s, ok) = self.s.subtype(x, y, (fuel - 1) as nat);
            (self.with_state(s), ok)
        } else if !((!kx && self.s.has_existential_typevar(x, self.e)) || (!ky
            && self.s.has_existential_typevar(y, self.e))) {
            let old_r = self.e.r.saved();
            let q = self.with_env(
                EnvV { l: self.e.l.cleared(), r: self.e.r.cleared(), ..self.e },
            );
            let (q1, ok) = q.forall_exists(x, y, param, (fuel - 1) as nat);
            (q1.with_env(EnvV { r: q1.e.r.restored(old_r), ..q1.e }), ok)
        } else if self.is_existential_typevar(x) != self.is_existential_typevar(y) {
            self.with_env(EnvV { l: UnionV { used: 0, ..self.e.l }, ..self.e }).left_loop(
                x,
                y,
                param,
                (fuel - 1) as nat,
                MAX_PASSES as nat,
            )
        } else {
            let limited_by = if limit == 2 {
                kx || ky
            } else {
                limit != 0
            };
            let rmore = self.e.r.more;
            let (q, se) = self.save();
            let st = SlowV { se, limited: false, ini_count: 0, latest: None, count: 0 };
            let (q1, st1, ok) = q.slow_outer(
                x,
                y,
                param,
                limited_by,
                rmore,
                st,
                (fuel - 1) as nat,
                MAX_PASSES as nat,
            );
            let q2 = if ok && q1.e.r.more > rmore && (st1.limited || q1.s.env_unchanged(
                q1.e,
                st1.se,
            )) {
                q1.with_env(q1.e.with_rmore(rmore))
            } else {
                q1
            };
            (q2.release(se), ok)
        }
    }

    /// Enumerates left arms only: the bounds accumulate.
    #[verifier::opaque]
    pub open spec fn left_loop(
        self,
        x: u32,
        y: u32,
        param: Param,
        fuel: nat,
        n: nat,
    ) -> (Q, bool)
        decreases fuel, 1nat, n,
    {
        if fuel == 0 || n == 0 {
            (self, false)
        } else {
            let q = self.with_env(EnvV { l: self.e.l.rewound(), ..self.e });
            let (q1, ok) = q.sub(x, y, param, (fuel - 1) as nat);
            if !ok {
                (q1, false)
            } else {
                let (q2, more) = q1.next(false);
                if more {
                    q2.left_loop(x, y, param, fuel, (n - 1) as nat)
                } else {
                    (q2, true)
                }
            }
        }
    }

    /// The slow enumeration: one run over the left arms per combination of the
    /// right decisions discovered within.
    #[verifier::opaque]
    pub open spec fn slow_outer(
        self,
        x: u32,
        y: u32,
        param: Param,
        limited_by: bool,
        rmore: usize,
        st: SlowV,
        fuel: nat,
        n: nat,
    ) -> (Q, SlowV, bool)
        decreases fuel, 2nat, n,
    {
        if fuel == 0 || n == 0 {
            (self, st, false)
        } else {
            let l = match st.latest {
                Some(u) => if st.ini_count == 0 {
                    UnionV { used: 0, ..self.e.l }
                } else {
                    self.e.l.restored(u)
                },
                None => UnionV { used: 0, ..self.e.l },
            };
            let (q1, st1, ok) = self.with_env(EnvV { l, ..self.e }).slow_inner(
                x,
                y,
                param,
                limited_by,
                rmore,
                SlowV { count: st.ini_count, ..st },
                fuel,
                MAX_PASSES as nat,
            );
            if ok || q1.e.r.more == rmore {
                (q1, st1, ok)
            } else {
                let (q2, more) = q1.next(true);
                let q3 = q2.restore(st1.se);
                q3.with_env(q3.e.with_rmore(rmore)).slow_outer(
                    x,
                    y,
                    param,
                    limited_by,
                    rmore,
                    st1,
                    fuel,
                    (n - 1) as nat,
                )
            }
        }
    }

    /// One run of the slow enumeration over the left arms. A successful step that
    /// discovered no right decision, or any step once limited, is frozen.
    #[verifier::opaque]
    pub open spec fn slow_inner(
        self,
        x: u32,
        y: u32,
        param: Param,
        limited_by: bool,
        rmore: usize,
        st: SlowV,
        fuel: nat,
        n: nat,
    ) -> (Q, SlowV, bool)
        decreases fuel, 1nat, n,
    {
        if fuel == 0 || n == 0 {
            (self, st, false)
        } else {
            let q = self.with_env(EnvV { l: self.e.l.rewound(), ..self.e });
            let count = if st.count < 4 {
                (st.count + 1) as u32
            } else {
                st.count
            };
            let (q1, ok) = q.sub(x, y, param, (fuel - 1) as nat);
            let st1 = SlowV { count, limited: st.limited || (limited_by && count == 4), ..st };
            if !ok {
                (q1, st1, false)
            } else {
                let (q2, more) = q1.next(false);
                if !more {
                    (q2, st1, true)
                } else if st1.limited || q2.e.r.more == rmore {
                    let latest = q2.e.l.saved();
                    let (q3, se) = q2.resave(st1.se);
                    q3.with_env(q3.e.with_rmore(rmore)).slow_inner(
                        x,
                        y,
                        param,
                        limited_by,
                        rmore,
                        SlowV { ini_count: count, latest: Some(latest), se, ..st1 },
                        fuel,
                        (n - 1) as nat,
                    )
                } else {
                    q2.slow_inner(x, y, param, limited_by, rmore, st1, fuel, (n - 1) as nat)
                }
            }
        }
    }

    /// For all combinations of left arms there is one of right arms.
    #[verifier::opaque]
    pub open spec fn forall_exists(self, x: u32, y: u32, param: Param, fuel: nat) -> (Q, bool)
        decreases fuel, 6nat, 0nat,
    {
        if fuel == 0 {
            (self, false)
        } else {
            let (q, se) = self.save();
            let (q1, ok) = q.with_env(
                EnvV { l: UnionV { used: 0, ..q.e.l }, ..q.e },
            ).forall_loop(x, y, param, se, (fuel - 1) as nat, MAX_PASSES as nat);
            (q1.release(se), ok)
        }
    }

    #[verifier::opaque]
    pub open spec fn forall_loop(
        self,
        x: u32,
        y: u32,
        param: Param,
        se: SavedV,
        fuel: nat,
        n: nat,
    ) -> (Q, bool)
        decreases fuel, 2nat, n,
    {
        if fuel == 0 || n == 0 {
            (self, false)
        } else {
            let (q1, ok) = self.with_env(
                EnvV { r: UnionV { used: 0, ..self.e.r }, ..self.e },
            ).exists_loop(x, y, param, se, fuel, MAX_PASSES as nat);
            if !ok {
                (q1, false)
            } else {
                let (q2, more) = q1.next(false);
                if more {
                    let (q3, se1) = q2.resave(se);
                    q3.forall_loop(x, y, param, se1, fuel, (n - 1) as nat)
                } else {
                    (q2, true)
                }
            }
        }
    }

    #[verifier::opaque]
    pub open spec fn exists_loop(
        self,
        x: u32,
        y: u32,
        param: Param,
        se: SavedV,
        fuel: nat,
        n: nat,
    ) -> (Q, bool)
        decreases fuel, 1nat, n,
    {
        if fuel == 0 || n == 0 {
            (self, false)
        } else {
            let q = self.with_env(
                EnvV { l: self.e.l.rewound(), r: self.e.r.rewound(), ..self.e },
            );
            let (q1, ok) = q.sub(x, y, param, (fuel - 1) as nat);
            if ok {
                (q1, true)
            } else {
                let (q2, more) = q1.next(true);
                let q3 = q2.restore(se);
                if more {
                    q3.exists_loop(x, y, param, se, fuel, (n - 1) as nat)
                } else {
                    (q3, false)
                }
            }
        }
    }
}

impl State {
    /// The nearest supertype of `x`, itself included, with the name `name`.
    pub open spec fn super_named(self, x: u32, name: u32, fuel: nat) -> Option<u32>
        decreases fuel,
    {
        if self.name_of(x) == name {
            Some(x)
        } else if fuel == 0 || self.supertype(x) == x {
            None
        } else {
            self.super_named(self.supertype(x), name, (fuel - 1) as nat)
        }
    }

    /// Whether `a <: b`.
    #[verifier::opaque]
    pub open spec fn subtype(self, a: u32, b: u32, fuel: nat) -> (State, bool)
        decreases fuel, 7nat, 0nat,
    {
        let (q, ok) = (Q { s: self.push_roots(seq![a, b]), e: EnvV::empty() }).forall_exists(
            a,
            b,
            Param::Top,
            fuel,
        );
        (q.s.pop_roots(2), ok)
    }

    /// The greatest lower bound of `a` and `b`. Where it is no existing type it is
    /// empty in mode 0, a meet node in mode 1, and widened in mode 2.
    #[verifier::opaque]
    pub open spec fn meet(self, a: u32, b: u32, mode: int, fuel: nat) -> (State, u32)
        decreases fuel, 6nat, 0nat,
    {
        let any = self.builtin(id::ANY);
        let bottom = self.builtin(id::BOTTOM);
        if fuel == 0 {
            (self, b)
        } else if a == any || b == bottom || self.obviously_egal(a, b, MAX_NESTING as nat) {
            (self, b)
        } else if b == any || a == bottom {
            (self, a)
        } else if mode == 1 && (self.is_intersect(a) || self.is_intersect(b)) {
            self.intersect_type(a, b)
        } else if !self.is_type_or_typevar(a) || !self.is_type_or_typevar(b) {
            (self, bottom)
        } else if self.is_kind(a) && self.is_type_type(b) && self.tag(
            self.svec_ref(self.parameters(b), 0),
        ) == a {
            (self, b)
        } else if self.is_kind(b) && self.is_type_type(a) && self.tag(
            self.svec_ref(self.parameters(a), 0),
        ) == b {
            (self, a)
        } else if self.is_typevar(a) && self.obviously_egal(
            b,
            self.tvar_ub(a),
            MAX_NESTING as nat,
        ) {
            (self, a)
        } else if self.is_typevar(b) && self.obviously_egal(
            a,
            self.tvar_ub(b),
            MAX_NESTING as nat,
        ) {
            (self, b)
        } else {
            self.meet_unions(a, b, mode, (fuel - 1) as nat)
        }
    }

    /// Whether `x` and `y` provably share no instance.
    #[verifier::opaque]
    pub open spec fn disjoint(self, x: u32, y: u32, fuel: nat) -> (State, bool)
        decreases fuel, 6nat, 0nat,
    {
        if fuel == 0 || x == y || !self.is_datatype(x) || !self.is_datatype(y) || self.is_tuple(x)
            || self.is_tuple(y) || self.is_type_type(x) || self.is_type_type(y)
            || self.has_free_typevars(x) || self.has_free_typevars(y) {
            (self, false)
        } else {
            let (s1, xy) = self.subtype(x, y, (fuel - 1) as nat);
            if xy {
                (s1, false)
            } else {
                let (s2, yx) = s1.subtype(y, x, (fuel - 1) as nat);
                (s2, !yx)
            }
        }
    }

    /// Marks component `i` and those of the other side from `j` on that are not
    /// disjoint from it.
    #[verifier::opaque]
    pub open spec fn alive_row(
        self,
        comps: Seq<u32>,
        alive: Seq<bool>,
        i: int,
        j: int,
        fuel: nat,
    ) -> (State, Seq<bool>)
        decreases fuel, 1nat, comps.len() - j,
    {
        if fuel == 0 || i < 0 || j < 0 || i >= comps.len() || j >= comps.len() || alive.len()
            != comps.len() {
            (self, alive)
        } else if alive[i] && alive[j] {
            self.alive_row(comps, alive, i, j + 1, fuel)
        } else {
            let (s, d) = self.disjoint(comps[i], comps[j], (fuel - 1) as nat);
            s.alive_row(
                comps,
                if d {
                    alive
                } else {
                    alive.update(i, true).update(j, true)
                },
                i,
                j + 1,
                fuel,
            )
        }
    }

    /// Marks the components from `i` up to `na` that are not disjoint from every
    /// component of the other side, and those of the other side likewise.
    #[verifier::opaque]
    pub open spec fn alive_rows(
        self,
        comps: Seq<u32>,
        alive: Seq<bool>,
        na: int,
        i: int,
        fuel: nat,
    ) -> (State, Seq<bool>)
        decreases fuel, 2nat, na - i,
    {
        if fuel == 0 || i < 0 || i >= na {
            (self, alive)
        } else {
            let (s, a) = self.alive_row(comps, alive, i, na, fuel);
            s.alive_rows(comps, a, na, i + 1, fuel)
        }
    }

    /// Relates component `i` to those of the other side from `j` on. A standing is
    /// -1 above some component of the other side, 1 equal to one, 2 below one.
    #[verifier::opaque]
    pub open spec fn standing_row(
        self,
        comps: Seq<u32>,
        alive: Seq<bool>,
        st: Seq<i8>,
        i: int,
        j: int,
        fuel: nat,
    ) -> (State, Seq<i8>)
        decreases fuel, 1nat, comps.len() - j,
    {
        if fuel == 0 || i < 0 || j < 0 || i >= comps.len() || j >= comps.len() || alive.len()
            != comps.len() || st.len() != comps.len() {
            (self, st)
        } else if !alive[j] {
            self.standing_row(comps, alive, st, i, j + 1, fuel)
        } else {
            let (s1, ij) = self.subtype(comps[i], comps[j], (fuel - 1) as nat);
            let (s2, ji) = s1.subtype(comps[j], comps[i], (fuel - 1) as nat);
            s2.standing_row(comps, alive, stand(st, i, j, ij, ji), i, j + 1, fuel)
        }
    }

    /// Relates the components from `i` up to `na` to those of the other side.
    #[verifier::opaque]
    pub open spec fn standing_rows(
        self,
        comps: Seq<u32>,
        alive: Seq<bool>,
        st: Seq<i8>,
        na: int,
        i: int,
        fuel: nat,
    ) -> (State, Seq<i8>)
        decreases fuel, 2nat, na - i,
    {
        if fuel == 0 || i < 0 || i >= na || i >= alive.len() {
            (self, st)
        } else if !alive[i] {
            self.standing_rows(comps, alive, st, na, i + 1, fuel)
        } else {
            let (s, t) = self.standing_row(comps, alive, st, i, na, fuel);
            s.standing_rows(comps, alive, t, na, i + 1, fuel)
        }
    }

    /// The meet of two types by their union components.
    #[verifier::opaque]
    pub open spec fn meet_unions(self, a: u32, b: u32, mode: int, fuel: nat) -> (State, u32)
        decreases fuel, 6nat, 0nat,
    {
        if fuel == 0 {
            (self, b)
        } else {
            let bottom = self.builtin(id::BOTTOM);
            let ca = self.flatten(a, MAX_NESTING as nat);
            let comps = ca + self.flatten(b, MAX_NESTING as nat);
            let na = ca.len() as int;
            let n = comps.len() as int;
            let (s1, alive) = self.alive_rows(
                comps,
                Seq::new(comps.len(), |i: int| false),
                na,
                0,
                (fuel - 1) as nat,
            );
            let (s2, st) = s1.standing_rows(
                comps,
                alive,
                Seq::new(comps.len(), |i: int| 0i8),
                na,
                0,
                (fuel - 1) as nat,
            );
            let none = !any_alive(alive, 0, na);
            let sub_a = none || all_below(alive, st, 0, na, false);
            let sub_b = none || all_below(alive, st, na, n, false);
            if !none && all_below(alive, st, 0, na, true) {
                (s2, a)
            } else if !none && all_below(alive, st, na, n, true) {
                (s2, b)
            } else if none || (mode == 0 && !sub_a && !sub_b) {
                (s2, bottom)
            } else if !sub_a && !sub_b && mode == 1 {
                s2.intersect_type(a, b)
            } else {
                let keep = if sub_a {
                    kept(comps, alive, st, 0, na, -2, na)
                } else if sub_b {
                    kept(comps, alive, st, na, n, -2, n)
                } else {
                    kept(comps, alive, st, 0, na, 2, na) + kept(comps, alive, st, na, n, 0, n)
                };
                if keep.len() == 0 {
                    (s2, bottom)
                } else {
                    s2.union_all(keep, (fuel - 1) as nat)
                }
            }
        }
    }

    /// An ordinary type above the meet spine `t`.
    #[verifier::opaque]
    pub open spec fn widen(self, t: u32, fuel: nat) -> (State, u32)
        decreases fuel, 6nat, 0nat,
    {
        if fuel == 0 || !self.is_intersect(t) {
            (self, t)
        } else {
            let (s1, a) = self.widen(self.union_a(t), (fuel - 1) as nat);
            let (s2, b) = s1.push_root(a).widen(s1.union_b(t), (fuel - 1) as nat);
            let (s3, m) = s2.push_root(b).meet(a, b, 2, (fuel - 1) as nat);
            (s3.pop_roots(2), m)
        }
    }

    /// The least upper bound of `a` and `b`.
    #[verifier::opaque]
    pub open spec fn join(self, a: u32, b: u32, fuel: nat) -> (State, u32)
        decreases fuel, 6nat, 0nat,
    {
        let any = self.builtin(id::ANY);
        let bottom = self.builtin(id::BOTTOM);
        if a == bottom || b == any || a == b {
            (self, b)
        } else if fuel == 0 || b == bottom || a == any {
            (self, a)
        } else {
            self.union_all(seq![a, b], (fuel - 1) as nat)
        }
    }

    /// Whether component `i` survives normalisation: it is not `Union{}`, and is
    /// below no component from `j` on that is still kept, except that of equal
    /// components the first survives.
    #[verifier::opaque]
    pub open spec fn survives(
        self,
        comps: Seq<u32>,
        keep: Seq<bool>,
        i: int,
        j: int,
        fuel: nat,
    ) -> (State, bool)
        decreases fuel, 1nat, comps.len() - j,
    {
        if fuel == 0 || i < 0 || j < 0 || i >= comps.len() || j >= comps.len() || keep.len()
            != comps.len() {
            (self, true)
        } else if i == j || !keep[j] {
            self.survives(comps, keep, i, j + 1, fuel)
        } else {
            let (s1, ij) = self.subtype(comps[i], comps[j], (fuel - 1) as nat);
            if !ij {
                s1.survives(comps, keep, i, j + 1, fuel)
            } else {
                let (s2, ji) = s1.subtype(comps[j], comps[i], (fuel - 1) as nat);
                if ji && i < j {
                    s2.survives(comps, keep, i, j + 1, fuel)
                } else {
                    (s2, false)
                }
            }
        }
    }

    /// Which components from `i` on survive normalisation.
    #[verifier::opaque]
    pub open spec fn survivors(
        self,
        comps: Seq<u32>,
        keep: Seq<bool>,
        i: int,
        fuel: nat,
    ) -> (State, Seq<bool>)
        decreases fuel, 2nat, comps.len() - i,
    {
        if fuel == 0 || i < 0 || i >= comps.len() || keep.len() != comps.len() {
            (self, keep)
        } else if comps[i] == self.builtin(id::BOTTOM) {
            self.survivors(comps, keep.update(i, false), i + 1, fuel)
        } else {
            let (s, ok) = self.survives(comps, keep, i, 0, fuel);
            s.survivors(comps, keep.update(i, ok), i + 1, fuel)
        }
    }

    /// The right-nested union of the first `n` of `parts`, ending in `acc`.
    pub open spec fn nest_unions(self, parts: Seq<u32>, n: int, acc: u32) -> (State, u32)
        decreases n,
    {
        if n <= 0 || n > parts.len() {
            (self, acc)
        } else {
            let (s, v) = self.union_node(parts[n - 1], acc);
            s.nest_unions(parts, n - 1, v)
        }
    }

    /// The normalised union of `parts`: flattened, without members below another,
    /// in canonical order.
    #[verifier::opaque]
    pub open spec fn union_all(self, parts: Seq<u32>, fuel: nat) -> (State, u32)
        decreases fuel, 6nat, 0nat,
    {
        if fuel == 0 {
            (self, self.builtin(id::ANY))
        } else {
            let s0 = self.push_roots(parts);
            let comps = s0.flatten_all(parts, parts.len() as int);
            let (s1, keep) = s0.survivors(
                comps,
                Seq::new(comps.len(), |i: int| true),
                0,
                (fuel - 1) as nat,
            );
            let left = filter_kept(comps, keep, comps.len() as int);
            let members = dedup(s1.sorted(left, left.len() as int));
            if members.len() == 0 {
                (s1.pop_roots(parts.len() as int), self.builtin(id::BOTTOM))
            } else {
                let (s2, u) = s1.nest_unions(members, members.len() - 1, members.last());
                (s2.pop_roots(parts.len() as int), u)
            }
        }
    }
}

/// The standings after components `i` and `j` were compared both ways.
pub open spec fn stand(st: Seq<i8>, i: int, j: int, ij: bool, ji: bool) -> Seq<i8> {
    if ji && !ij {
        let t = st.update(i, -1i8);
        if t[j] >= 0 {
            t.update(j, 2i8)
        } else {
            t
        }
    } else if ij && !ji {
        let t = st.update(j, -1i8);
        if t[i] >= 0 {
            t.update(i, 2i8)
        } else {
            t
        }
    } else if ij && ji {
        let t = if st[i] == 0 {
            st.update(i, 1i8)
        } else {
            st
        };
        if t[j] == 0 {
            t.update(j, 1i8)
        } else {
            t
        }
    } else {
        st
    }
}

/// Whether some component from `lo` up to `hi` is alive.
pub open spec fn any_alive(alive: Seq<bool>, lo: int, hi: int) -> bool {
    exists|k: int| lo <= k < hi && #[trigger] alive[k]
}

/// Whether every component from `lo` up to `hi` is dead or at or below one of the
/// other side; `strict` demands that all are alive.
pub open spec fn all_below(
    alive: Seq<bool>,
    st: Seq<i8>,
    lo: int,
    hi: int,
    strict: bool,
) -> bool {
    forall|k: int|
        #![trigger alive[k]]
        lo <= k < hi ==> if strict {
            alive[k] && st[k] > 0
        } else {
            !alive[k] || st[k] > 0
        }
}

/// The live components from `lo` up to `n` whose standing is at least `least`.
pub open spec fn kept(
    comps: Seq<u32>,
    alive: Seq<bool>,
    st: Seq<i8>,
    lo: int,
    hi: int,
    least: int,
    n: int,
) -> Seq<u32>
    decreases n - lo,
{
    if n <= lo || n > hi {
        Seq::empty()
    } else if alive[n - 1] && st[n - 1] >= least {
        kept(comps, alive, st, lo, hi, least, n - 1).push(comps[n - 1])
    } else {
        kept(comps, alive, st, lo, hi, least, n - 1)
    }
}

/// The kept ones of the first `n` components.
pub open spec fn filter_kept(comps: Seq<u32>, keep: Seq<bool>, n: int) -> Seq<u32>
    decreases n,
{
    if n <= 0 || n > comps.len() || n > keep.len() {
        Seq::empty()
    } else if keep[n - 1] {
        filter_kept(comps, keep, n - 1).push(comps[n - 1])
    } else {
        filter_kept(comps, keep, n - 1)
    }
}

} // verus!
