//! Identity of values and structural equality of types.
//!
//! Interned symbols, truth values, `nothing`, name objects and free type
//! variables are identical only to themselves. Other primitives compare by their
//! payload bits; vectors, unions, `where` types and data types compare
//! structurally.

use vstd::prelude::*;
use crate::access;
use crate::access::MAX_NESTING;
use crate::id;
use crate::region::NULL;
use crate::state::{Runtime, State, Value};

verus! {

/// The partner of `a` in the innermost pair of `env` that binds it.
pub open spec fn partner(env: Seq<(u32, u32)>, a: u32) -> Option<u32>
    decreases env.len(),
{
    if env.len() == 0 {
        None
    } else if env.last().0 == a {
        Some(env.last().1)
    } else {
        partner(env.drop_last(), a)
    }
}

impl State {
    /// Whether the first `size` payload bytes of `a` and `b` are equal.
    pub open spec fn bits_equal(self, a: u32, b: u32, size: u32) -> bool {
        forall|i: int| 0 <= i < size ==> #[trigger] self.byte(a, i) == self.byte(b, i)
    }

    /// Whether `a` and `b` are identical values.
    pub open spec fn egal(self, a: u32, b: u32, fuel: nat) -> bool
        decreases fuel,
    {
        if a == b {
            true
        } else if fuel == 0 || a == NULL || b == NULL || self.tag(a) != self.tag(b) {
            false
        } else {
            self.egal_unboxed(self.tag(a), a, b, (fuel - 1) as nat)
        }
    }

    /// Whether the distinct values `a` and `b`, both of type `t`, are identical.
    pub open spec fn egal_unboxed(self, t: u32, a: u32, b: u32, fuel: nat) -> bool
        decreases fuel,
    {
        if fuel == 0 || t == self.builtin(id::SYMBOL) || t == self.builtin(id::BOOL) || t
            == self.builtin(id::NOTHING) || t == self.builtin(id::TVAR) || t == self.builtin(
            id::TYPENAME,
        ) {
            false
        } else if t == self.builtin(id::SVEC) {
            self.egal_elems(a, b, (fuel - 1) as nat)
        } else if t == self.builtin(id::UNION) {
            self.egal(self.union_a(a), self.union_a(b), (fuel - 1) as nat) && self.egal(
                self.union_b(a),
                self.union_b(b),
                (fuel - 1) as nat,
            )
        } else if t == self.builtin(id::UNIONALL) {
            self.egal_types(a, b, Seq::empty(), true, (fuel - 1) as nat)
        } else if t == self.builtin(id::DATATYPE) {
            if self.name_of(a) != self.name_of(b) {
                false
            } else if self.parameters(a) == NULL || self.parameters(b) == NULL {
                self.parameters(a) == self.parameters(b)
            } else {
                self.egal_elems(self.parameters(a), self.parameters(b), (fuel - 1) as nat)
            }
        } else if self.is_primitive(t) {
            self.bits_equal(a, b, self.size_of(t))
        } else {
            false
        }
    }

    /// Whether the simple vectors `a` and `b` have identical elements.
    pub open spec fn egal_elems(self, a: u32, b: u32, fuel: nat) -> bool
        decreases fuel,
    {
        &&& fuel > 0
        &&& self.svec_len(a) == self.svec_len(b)
        &&& forall|i: int|
            #![trigger self.svec_ref(a, i)]
            0 <= i < self.svec_len(a) ==> self.egal(
                self.svec_ref(a, i),
                self.svec_ref(b, i),
                (fuel - 1) as nat,
            )
    }

    /// Whether the types `a` and `b` are structurally equal where `env` pairs the
    /// variables already entered; `names` tells whether variable names matter.
    pub open spec fn egal_types(
        self,
        a: u32,
        b: u32,
        env: Seq<(u32, u32)>,
        names: bool,
        fuel: nat,
    ) -> bool
        decreases fuel,
    {
        if a == b {
            true
        } else if fuel == 0 || self.tag(a) != self.tag(b) {
            false
        } else if self.tag(a) == self.builtin(id::DATATYPE) {
            if self.name_of(a) != self.name_of(b) {
                false
            } else if self.parameters(a) == NULL || self.parameters(b) == NULL {
                self.parameters(a) == self.parameters(b)
            } else {
                let pa = self.parameters(a);
                let pb = self.parameters(b);
                &&& self.svec_len(pa) == self.svec_len(pb)
                &&& forall|i: int|
                    #![trigger self.svec_ref(pa, i)]
                    0 <= i < self.svec_len(pa) ==> self.egal_types(
                        self.svec_ref(pa, i),
                        self.svec_ref(pb, i),
                        env,
                        names,
                        (fuel - 1) as nat,
                    )
            }
        } else if self.tag(a) == self.builtin(id::TVAR) {
            partner(env, a) == Some(b)
        } else if self.tag(a) == self.builtin(id::UNIONALL) {
            let va = self.unionall_var(a);
            let vb = self.unionall_var(b);
            &&& !(names && self.tvar_name(va) != self.tvar_name(vb))
            &&& self.egal_types(self.tvar_lb(va), self.tvar_lb(vb), env, names, (fuel - 1) as nat)
            &&& self.egal_types(self.tvar_ub(va), self.tvar_ub(vb), env, names, (fuel - 1) as nat)
            &&& self.egal_types(
                self.unionall_body(a),
                self.unionall_body(b),
                env.push((va, vb)),
                names,
                (fuel - 1) as nat,
            )
        } else if self.tag(a) == self.builtin(id::UNION) {
            self.egal_types(self.union_a(a), self.union_a(b), env, names, (fuel - 1) as nat)
                && self.egal_types(
                self.union_b(a),
                self.union_b(b),
                env,
                names,
                (fuel - 1) as nat,
            )
        } else {
            self.egal_unboxed(self.tag(a), a, b, (fuel - 1) as nat)
        }
    }
}

/// Whether the first `size` payload bytes of `a` and `b` are equal.
fn bits_equal(rt: &Runtime, a: u32, b: u32, size: u32) -> (r: bool)
    ensures
        r == rt@.bits_equal(a, b, size),
{
    let mut i: u32 = 0;
    while i < size
        invariant
            i <= size,
            forall|k: int| 0 <= k < i ==> #[trigger] rt@.byte(a, k) == rt@.byte(b, k),
        decreases size - i,
    {
        if rt.byte(a, i as u64) != rt.byte(b, i as u64) {
            assert(rt@.byte(a, i as int) != rt@.byte(b, i as int));
            return false;
        }
        i = i + 1;
    }
    true
}

/// Whether `a` and `b` are identical, to the given nesting depth.
pub fn egal_at(rt: &Runtime, a: u32, b: u32, fuel: u32) -> (r: bool)
    ensures
        r == rt@.egal(a, b, fuel as nat),
    decreases fuel,
{
    if a == b {
        return true;
    }
    if fuel == 0 || a == NULL || b == NULL {
        return false;
    }
    let t: u32 = access::tag_of(rt, a);
    if access::tag_of(rt, b) != t {
        return false;
    }
    egal_unboxed(rt, t, a, b, fuel - 1)
}

fn egal_elems(rt: &Runtime, a: u32, b: u32, fuel: u32) -> (r: bool)
    ensures
        r == rt@.egal_elems(a, b, fuel as nat),
    decreases fuel,
{
    let n: u32 = access::svec_len(rt, a);
    if fuel == 0 || n != access::svec_len(rt, b) {
        return false;
    }
    let mut i: u32 = 0;
    while i < n
        invariant
            i <= n,
            fuel > 0,
            n == rt@.svec_len(a),
            n == rt@.svec_len(b),
            forall|k: int|
                #![trigger rt@.svec_ref(a, k)]
                0 <= k < i ==> rt@.egal(rt@.svec_ref(a, k), rt@.svec_ref(b, k), (fuel - 1) as nat),
        decreases n - i,
    {
        if !egal_at(rt, access::svec_ref(rt, a, i), access::svec_ref(rt, b, i), fuel - 1) {
            return false;
        }
        i = i + 1;
    }
    true
}

fn egal_unboxed(rt: &Runtime, t: u32, a: u32, b: u32, fuel: u32) -> (r: bool)
    ensures
        r == rt@.egal_unboxed(t, a, b, fuel as nat),
    decreases fuel,
{
    if fuel == 0 || t == access::builtin(rt, id::SYMBOL) || t == access::builtin(rt, id::BOOL)
        || t == access::builtin(rt, id::NOTHING) || t == access::builtin(rt, id::TVAR) || t
        == access::builtin(rt, id::TYPENAME) {
        return false;
    }
    if t == access::builtin(rt, id::SVEC) {
        return egal_elems(rt, a, b, fuel - 1);
    }
    if t == access::builtin(rt, id::UNION) {
        return egal_at(rt, access::union_a(rt, a), access::union_a(rt, b), fuel - 1) && egal_at(
            rt,
            access::union_b(rt, a),
            access::union_b(rt, b),
            fuel - 1,
        );
    }
    if t == access::builtin(rt, id::UNIONALL) {
        let mut env: Vec<(u32, u32)> = Vec::new();
        return egal_types(rt, a, b, &mut env, true, fuel - 1);
    }
    if t == access::builtin(rt, id::DATATYPE) {
        if access::name_of(rt, a) != access::name_of(rt, b) {
            return false;
        }
        let pa: u32 = access::parameters_of(rt, a);
        let pb: u32 = access::parameters_of(rt, b);
        if pa == NULL || pb == NULL {
            return pa == pb;
        }
        return egal_elems(rt, pa, pb, fuel - 1);
    }
    if access::is_primitive(rt, t) {
        return bits_equal(rt, a, b, access::size_of(rt, t));
    }
    false
}

/// The partner of `a` in the innermost pair that binds it.
fn find_partner(env: &Vec<(u32, u32)>, a: u32) -> (r: Option<u32>)
    ensures
        r == partner(env@, a),
{
    let mut i: usize = env.len();
    assert(env@.take(env.len() as int) =~= env@);
    while i > 0
        invariant
            i <= env.len(),
            partner(env@, a) == partner(env@.take(i as int), a),
        decreases i,
    {
        i = i - 1;
        assert(env@.take(i + 1).drop_last() =~= env@.take(i as int));
        if env[i].0 == a {
            return Some(env[i].1);
        }
    }
    None
}

fn egal_types(
    rt: &Runtime,
    a: u32,
    b: u32,
    env: &mut Vec<(u32, u32)>,
    names: bool,
    fuel: u32,
) -> (r: bool)
    ensures
        r == rt@.egal_types(a, b, old(env)@, names, fuel as nat),
        final(env)@ == old(env)@,
    decreases fuel,
{
    if a == b {
        return true;
    }
    let t: u32 = access::tag_of(rt, a);
    if fuel == 0 || access::tag_of(rt, b) != t {
        return false;
    }
    if t == access::builtin(rt, id::DATATYPE) {
        if access::name_of(rt, a) != access::name_of(rt, b) {
            return false;
        }
        let pa: u32 = access::parameters_of(rt, a);
        let pb: u32 = access::parameters_of(rt, b);
        if pa == NULL || pb == NULL {
            return pa == pb;
        }
        let n: u32 = access::svec_len(rt, pa);
        if n != access::svec_len(rt, pb) {
            return false;
        }
        let mut i: u32 = 0;
        while i < n
            invariant
                i <= n,
                fuel > 0,
                a != b,
                t == rt@.tag(a),
                t == rt@.tag(b),
                t == rt@.builtin(id::DATATYPE),
                rt@.name_of(a) == rt@.name_of(b),
                pa == rt@.parameters(a),
                pb == rt@.parameters(b),
                pa != NULL,
                pb != NULL,
                n == rt@.svec_len(pa),
                n == rt@.svec_len(pb),
                env@ == old(env)@,
                forall|k: int|
                    #![trigger rt@.svec_ref(pa, k)]
                    0 <= k < i ==> rt@.egal_types(
                        rt@.svec_ref(pa, k),
                        rt@.svec_ref(pb, k),
                        env@,
                        names,
                        (fuel - 1) as nat,
                    ),
            decreases n - i,
        {
            if !egal_types(
                rt,
                access::svec_ref(rt, pa, i),
                access::svec_ref(rt, pb, i),
                env,
                names,
                fuel - 1,
            ) {
                return false;
            }
            i = i + 1;
        }
        return true;
    }
    if t == access::builtin(rt, id::TVAR) {
        return match find_partner(env, a) {
            Some(x) => x == b,
            None => false,
        };
    }
    if t == access::builtin(rt, id::UNIONALL) {
        let va: u32 = access::unionall_var(rt, a);
        let vb: u32 = access::unionall_var(rt, b);
        if names && access::tvar_name(rt, va) != access::tvar_name(rt, vb) {
            return false;
        }
        if !egal_types(
            rt,
            access::tvar_lb(rt, va),
            access::tvar_lb(rt, vb),
            env,
            names,
            fuel - 1,
        ) {
            return false;
        }
        if !egal_types(
            rt,
            access::tvar_ub(rt, va),
            access::tvar_ub(rt, vb),
            env,
            names,
            fuel - 1,
        ) {
            return false;
        }
        env.push((va, vb));
        let r: bool = egal_types(
            rt,
            access::unionall_body(rt, a),
            access::unionall_body(rt, b),
            env,
            names,
            fuel - 1,
        );
        env.pop();
        assert(env@ =~= old(env)@);
        return r;
    }
    if t == access::builtin(rt, id::UNION) {
        return egal_types(
            rt,
            access::union_a(rt, a),
            access::union_a(rt, b),
            env,
            names,
            fuel - 1,
        ) && egal_types(rt, access::union_b(rt, a), access::union_b(rt, b), env, names, fuel - 1);
    }
    egal_unboxed(rt, t, a, b, fuel - 1)
}

/// Whether `a` and `b` are identical values.
pub fn egal(rt: &Runtime, a: Value, b: Value) -> (r: bool)
    ensures
        r == rt@.egal(a.0, b.0, MAX_NESTING as nat),
{
    egal_at(rt, a.0, b.0, MAX_NESTING)
}

/// Whether the types `a` and `b` are structurally equal; the names of bound
/// variables do not matter.
pub fn types_egal(rt: &Runtime, a: u32, b: u32) -> (r: bool)
    ensures
        r == rt@.egal_types(a, b, Seq::empty(), false, MAX_NESTING as nat),
{
    let mut env: Vec<(u32, u32)> = Vec::new();
    egal_types(rt, a, b, &mut env, false, MAX_NESTING)
}

/// Identity is reflexive, and so is structural equality.
pub proof fn law_egal_reflexive(s: State, a: u32, env: Seq<(u32, u32)>, names: bool, fuel: nat)
    ensures
        s.egal(a, a, fuel),
        s.egal_types(a, a, env, names, fuel),
{
}

} // verus!
