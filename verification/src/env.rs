//! The environment of a subtype query.
//!
//! Every `where` variable entered by a query has a binding with its current
//! bounds. Two stacks of recorded decisions choose one arm for every union met:
//! one stack for unions on the left, one for unions on the right. Each stack is
//! a binary counter that grows as new decision points are discovered.

use vstd::prelude::*;
use crate::access;
use crate::state::{Runtime, State};

verus! {

/// Position of a subterm relative to the enclosing constructor.
#[derive(Clone, Copy, PartialEq, Eq, Structural)]
pub enum Param {
    /// At the top, or under a union or a `where`.
    Top,
    Covariant,
    Invariant,
}

/// A `where` variable and its current bounds.
#[derive(Clone, Copy, PartialEq, Eq, Structural)]
pub struct VarBinding {
    pub var: u32,
    pub lb: u32,
    pub ub: u32,
    /// Whether the variable was introduced on the right.
    pub existential: bool,
    /// Covariant occurrences in the current consistency scope, up to two.
    pub occurs_cov: i8,
    /// The largest count of covariant occurrences in any closed scope.
    pub cov_diag: i8,
    /// Invariant occurrences below the depth of introduction, up to two.
    pub occurs_inv: i8,
    /// Whether the variable occurs invariantly in the body that binds it.
    pub body_occurs_inv: bool,
    /// The nesting depth of invariant constructors at the introduction.
    pub depth0: i32,
    /// Whether the variable must be an integer.
    pub intvalued: bool,
    /// Whether another variable's diagonal constraint forces this one concrete.
    pub concrete: bool,
    /// The largest length offset seen, or -1 outside length positions.
    pub max_offset: i8,
    /// The shadow-stack slot of the lower bound; the upper bound follows it.
    pub root_base: usize,
}

/// A stack of union decisions.
pub struct UnionState {
    /// The next decision point to read.
    pub depth: usize,
    /// The deepest decision point whose second arm is untried.
    pub more: usize,
    /// The number of meaningful decisions.
    pub used: usize,
    pub bits: Vec<bool>,
}

/// The picture of a decision stack.
#[verifier::ext_equal]
pub struct UnionV {
    pub depth: usize,
    pub more: usize,
    pub used: usize,
    pub bits: Seq<bool>,
}

impl View for UnionState {
    type V = UnionV;

    open spec fn view(&self) -> UnionV {
        UnionV { depth: self.depth, more: self.more, used: self.used, bits: self.bits@ }
    }
}

/// The environment of a query.
pub struct Env {
    pub vars: Vec<VarBinding>,
    pub invdepth: i32,
    pub lunions: UnionState,
    pub runions: UnionState,
    /// While two lengths are compared, the left one equals the right one plus this.
    pub loffset: i32,
}

/// The picture of an environment.
#[verifier::ext_equal]
pub struct EnvV {
    pub vars: Seq<VarBinding>,
    pub invdepth: i32,
    pub l: UnionV,
    pub r: UnionV,
    pub loffset: i32,
}

impl View for Env {
    type V = EnvV;

    open spec fn view(&self) -> EnvV {
        EnvV {
            vars: self.vars@,
            invdepth: self.invdepth,
            l: self.lunions@,
            r: self.runions@,
            loffset: self.loffset,
        }
    }
}

/// A query's world: the runtime's state and the environment.
#[verifier::ext_equal]
pub struct Q {
    pub s: State,
    pub e: EnvV,
}

/// The picture of a runtime and an environment.
pub open spec fn at(rt: Runtime, e: Env) -> Q {
    Q { s: rt@, e: e@ }
}

/// `n + 1`, saturating.
pub open spec fn up(n: usize) -> usize {
    if n == usize::MAX {
        n
    } else {
        (n + 1) as usize
    }
}

/// `n + 1`, saturating.
pub fn inc(n: usize) -> (r: usize)
    ensures
        r == up(n),
{
    if n == usize::MAX {
        n
    } else {
        n + 1
    }
}

/// `n + k`, saturating.
pub open spec fn shift_depth(n: i32, k: int) -> i32 {
    if n + k > i32::MAX {
        i32::MAX
    } else if n + k < i32::MIN {
        i32::MIN
    } else {
        (n + k) as i32
    }
}

/// One level deeper.
pub fn deeper(n: i32) -> (r: i32)
    ensures
        r == shift_depth(n, 1),
{
    if n == i32::MAX {
        n
    } else {
        n + 1
    }
}

/// One level shallower.
pub fn shallower(n: i32) -> (r: i32)
    ensures
        r == shift_depth(n, -1),
{
    if n == i32::MIN {
        n
    } else {
        n - 1
    }
}

/// The negated offset, saturating.
pub open spec fn negate(n: i32) -> i32 {
    if n == i32::MIN {
        i32::MAX
    } else {
        (-n) as i32
    }
}

/// Negates an offset.
pub fn neg(n: i32) -> (r: i32)
    ensures
        r == negate(n),
{
    if n == i32::MIN {
        i32::MAX
    } else {
        -n
    }
}

/// The larger of two counts.
pub open spec fn larger(a: i8, b: i8) -> i8 {
    if a > b {
        a
    } else {
        b
    }
}

/// The larger of two counts.
pub fn max_count(a: i8, b: i8) -> (r: i8)
    ensures
        r == larger(a, b),
{
    if a > b {
        a
    } else {
        b
    }
}

/// The decisions `bits` with decision `i` set to `v`, padded with first arms.
pub open spec fn with_bit(bits: Seq<bool>, i: int, v: bool) -> Seq<bool> {
    if i < bits.len() {
        bits.update(i, v)
    } else {
        (bits + Seq::new((i - bits.len()) as nat, |k: int| false)).push(v)
    }
}

impl UnionV {
    pub open spec fn get(self, i: int) -> bool {
        0 <= i < self.bits.len() && self.bits[i]
    }

    pub open spec fn set(self, i: int, v: bool) -> UnionV {
        UnionV { bits: with_bit(self.bits, i, v), ..self }
    }

    /// The empty stack.
    pub open spec fn empty() -> UnionV {
        UnionV { depth: 0, more: 0, used: 0, bits: Seq::empty() }
    }

    /// The next combination of decisions, if one is left.
    pub open spec fn next(self) -> (UnionV, bool) {
        if self.more == 0 {
            (self, false)
        } else {
            (UnionV { used: self.more, ..self }.set(self.more - 1, true), true)
        }
    }

    /// Reads, or discovers, the decision at the current depth.
    pub open spec fn pick(self) -> (UnionV, bool) {
        let s = if self.depth >= self.used {
            UnionV { used: up(self.used), ..self.set(self.used as int, false) }
        } else {
            self
        };
        let ui = s.get(s.depth as int);
        let d = up(s.depth);
        (
            UnionV {
                depth: d,
                more: if ui {
                    s.more
                } else {
                    d
                },
                ..s
            },
            ui,
        )
    }

    /// The part of the stack that a snapshot keeps.
    pub open spec fn saved(self) -> UnionV {
        UnionV {
            bits: if self.used <= self.bits.len() {
                self.bits.take(self.used as int)
            } else {
                self.bits
            },
            ..self
        }
    }

    /// The stack with the snapshot `old` restored.
    pub open spec fn restored(self, old: UnionV) -> UnionV {
        UnionV {
            bits: if old.bits.len() <= self.bits.len() {
                old.bits + self.bits.skip(old.bits.len() as int)
            } else {
                old.bits
            },
            ..old
        }
    }

    /// The stack with no decision taken.
    pub open spec fn rewound(self) -> UnionV {
        UnionV { depth: 0, more: 0, ..self }
    }

    /// The stack with no decision recorded.
    pub open spec fn cleared(self) -> UnionV {
        UnionV { depth: 0, more: 0, used: 0, ..self }
    }
}

impl UnionState {
    /// The empty stack.
    pub fn empty() -> (r: UnionState)
        ensures
            r@ == UnionV::empty(),
    {
        let r: UnionState = UnionState { depth: 0, more: 0, used: 0, bits: Vec::new() };
        assert(r@.bits =~= Seq::<bool>::empty());
        r
    }

    fn get(&self, i: usize) -> (r: bool)
        ensures
            r == self@.get(i as int),
    {
        i < self.bits.len() && self.bits[i]
    }

    fn set(&mut self, i: usize, v: bool)
        ensures
            final(self)@ == old(self)@.set(i as int, v),
    {
        if i < self.bits.len() {
            self.bits.set(i, v);
        } else {
            let ghost b0 = self.bits@;
            while self.bits.len() < i
                invariant
                    b0.len() <= self.bits.len() <= i,
                    b0 == old(self).bits@,
                    self.depth == old(self).depth,
                    self.more == old(self).more,
                    self.used == old(self).used,
                    self.bits@ == b0 + Seq::new(
                        (self.bits.len() - b0.len()) as nat,
                        |k: int| false,
                    ),
                decreases i - self.bits.len(),
            {
                self.bits.push(false);
                assert(self.bits@ =~= b0 + Seq::new(
                    (self.bits.len() - b0.len()) as nat,
                    |k: int| false,
                ));
            }
            self.bits.push(v);
        }
        assert(self@ =~= old(self)@.set(i as int, v));
    }

    /// Moves to the next combination of decisions, if one is left.
    pub fn next_combination(&mut self) -> (r: bool)
        ensures
            (final(self)@, r) == old(self)@.next(),
    {
        if self.more == 0 {
            return false;
        }
        self.used = self.more;
        self.set(self.more - 1, true);
        true
    }

    /// Reads, or discovers, the decision at the current depth.
    pub fn pick(&mut self) -> (r: bool)
        ensures
            (final(self)@, r) == old(self)@.pick(),
    {
        if self.depth >= self.used {
            self.set(self.used, false);
            self.used = inc(self.used);
        }
        let ui: bool = self.get(self.depth);
        self.depth = inc(self.depth);
        if !ui {
            self.more = self.depth;
        }
        ui
    }

    /// A snapshot of the stack.
    pub fn save(&self) -> (r: UnionState)
        ensures
            r@ == self@.saved(),
    {
        let mut bits: Vec<bool> = Vec::new();
        let n: usize = if self.used <= self.bits.len() {
            self.used
        } else {
            self.bits.len()
        };
        let mut i: usize = 0;
        while i < n
            invariant
                i <= n <= self.bits.len(),
                bits@ == self.bits@.take(i as int),
            decreases n - i,
        {
            bits.push(self.bits[i]);
            i = i + 1;
            assert(bits@ =~= self.bits@.take(i as int));
        }
        let r: UnionState = UnionState {
            depth: self.depth,
            more: self.more,
            used: self.used,
            bits,
        };
        assert(self.bits@.take(self.bits.len() as int) =~= self.bits@);
        assert(r@ =~= self@.saved());
        r
    }

    /// Restores a snapshot.
    pub fn restore(&mut self, saved: &UnionState)
        ensures
            final(self)@ == old(self)@.restored(saved@),
    {
        self.depth = saved.depth;
        self.more = saved.more;
        self.used = saved.used;
        let ghost b0 = self.bits@;
        let n: usize = saved.bits.len();
        let mut i: usize = 0;
        while i < n
            invariant
                i <= n,
                n == saved.bits.len(),
                b0 == old(self).bits@,
                self.depth == saved.depth,
                self.more == saved.more,
                self.used == saved.used,
                b0.len() > i ==> self.bits.len() == b0.len(),
                b0.len() <= i ==> self.bits.len() == i,
                forall|k: int| 0 <= k < i ==> self.bits@[k] == saved.bits@[k],
                forall|k: int| i <= k < b0.len() ==> self.bits@[k] == b0[k],
            decreases n - i,
        {
            if i < self.bits.len() {
                self.bits.set(i, saved.bits[i]);
            } else {
                self.bits.push(saved.bits[i]);
            }
            i = i + 1;
        }
        assert(self@.bits =~= old(self)@.restored(saved@).bits);
    }

    /// Forgets which decisions were read.
    pub fn rewind(&mut self)
        ensures
            final(self)@ == old(self)@.rewound(),
    {
        self.depth = 0;
        self.more = 0;
    }

    /// Forgets all decisions.
    pub fn clear(&mut self)
        ensures
            final(self)@ == old(self)@.cleared(),
    {
        self.depth = 0;
        self.more = 0;
        self.used = 0;
    }
}

/// The innermost binding of `var` among the first `n` bindings.
pub open spec fn lookup(vars: Seq<VarBinding>, var: u32, n: int) -> Option<int>
    decreases n,
{
    if n <= 0 || n > vars.len() {
        None
    } else if vars[n - 1].var == var {
        Some(n - 1)
    } else {
        lookup(vars, var, n - 1)
    }
}

/// The bounds of all bindings, each lower bound before its upper bound.
pub open spec fn bounds(vars: Seq<VarBinding>) -> Seq<u32> {
    Seq::new(
        2 * vars.len(),
        |k: int| if k % 2 == 0 {
            vars[k / 2].lb
        } else {
            vars[k / 2].ub
        },
    )
}

/// A snapshot of the bindings, whose bounds the shadow stack keeps alive.
pub struct SavedVars {
    pub vars: Vec<VarBinding>,
    pub rdepth: usize,
    pub base: usize,
}

/// The picture of a snapshot.
#[verifier::ext_equal]
pub struct SavedV {
    pub vars: Seq<VarBinding>,
    pub rdepth: usize,
    pub base: usize,
}

impl View for SavedVars {
    type V = SavedV;

    open spec fn view(&self) -> SavedV {
        SavedV { vars: self.vars@, rdepth: self.rdepth, base: self.base }
    }
}

impl State {
    /// The state with the shadow-stack slots from `base` on set to `xs`.
    pub open spec fn with_roots(self, base: int, xs: Seq<u32>) -> State {
        State {
            roots: Seq::new(
                self.roots.len(),
                |j: int| if base <= j < base + xs.len() {
                    xs[j - base]
                } else {
                    self.roots[j]
                },
            ),
            ..self
        }
    }
}

impl EnvV {
    pub open spec fn find(self, var: u32) -> Option<int> {
        lookup(self.vars, var, self.vars.len() as int)
    }

    pub open spec fn with_var(self, i: int, b: VarBinding) -> EnvV {
        EnvV { vars: self.vars.update(i, b), ..self }
    }

    /// Records an occurrence of the variable of binding `i`.
    pub open spec fn record(self, i: int, param: Param) -> EnvV {
        if param == Param::Top || !(0 <= i < self.vars.len()) {
            self
        } else {
            let b = self.vars[i];
            let b1 = if param == Param::Invariant && self.invdepth > b.depth0 {
                VarBinding {
                    occurs_inv: if b.occurs_inv < 2 {
                        (b.occurs_inv + 1) as i8
                    } else {
                        b.occurs_inv
                    },
                    ..b
                }
            } else {
                VarBinding {
                    occurs_cov: if b.occurs_cov < 2 {
                        (b.occurs_cov + 1) as i8
                    } else {
                        b.occurs_cov
                    },
                    ..b
                }
            };
            self.with_var(i, VarBinding { max_offset: -1i8, ..b1 })
        }
    }

    /// Reads a decision of the right stack if `r`, else of the left one.
    pub open spec fn pick(self, r: bool) -> (EnvV, bool) {
        if r {
            (EnvV { r: self.r.pick().0, ..self }, self.r.pick().1)
        } else {
            (EnvV { l: self.l.pick().0, ..self }, self.l.pick().1)
        }
    }

    /// Moves to the next combination of the right stack if `r`, else of the left.
    pub open spec fn next(self, r: bool) -> (EnvV, bool) {
        if r {
            (EnvV { r: self.r.next().0, ..self }, self.r.next().1)
        } else {
            (EnvV { l: self.l.next().0, ..self }, self.l.next().1)
        }
    }

    /// The environment of a fresh query.
    pub open spec fn empty() -> EnvV {
        EnvV {
            vars: Seq::empty(),
            invdepth: 0,
            l: UnionV::empty(),
            r: UnionV::empty(),
            loffset: 0,
        }
    }
}

impl Q {
    /// The world with the snapshot's bounds on the shadow stack.
    pub open spec fn save(self) -> (Q, SavedV) {
        (
            Q { s: self.s.push_roots(bounds(self.e.vars)), ..self },
            SavedV {
                vars: self.e.vars,
                rdepth: self.e.r.depth,
                base: self.s.roots.len() as usize,
            },
        )
    }

    /// The world and the snapshot after the snapshot was taken anew.
    pub open spec fn resave(self, old: SavedV) -> (Q, SavedV) {
        (
            Q { s: self.s.with_roots(old.base as int, bounds(self.e.vars)), ..self },
            SavedV { vars: self.e.vars, rdepth: self.e.r.depth, base: old.base },
        )
    }

    /// The world with the bindings from position `i` on restored.
    pub open spec fn restore_from(self, old: SavedV, i: int) -> Q
        decreases old.vars.len() - i,
    {
        if i < 0 || i >= old.vars.len() || i >= self.e.vars.len() {
            Q { e: EnvV { r: UnionV { depth: old.rdepth, ..self.e.r }, ..self.e }, ..self }
        } else {
            let b = VarBinding {
                concrete: self.e.vars[i].concrete,
                intvalued: self.e.vars[i].intvalued,
                ..old.vars[i]
            };
            Q {
                s: self.s.with_root(b.root_base as int, b.lb).with_root(b.root_base + 1, b.ub),
                e: self.e.with_var(i, b),
            }.restore_from(old, i + 1)
        }
    }

    /// The world with the snapshot's bindings restored. The concreteness and
    /// integer marks persist.
    #[verifier::opaque]
    pub open spec fn restore(self, old: SavedV) -> Q {
        self.restore_from(old, 0)
    }

    /// The world with the snapshot's shadow-stack slots released.
    pub open spec fn release(self, old: SavedV) -> Q {
        Q { s: self.s.pop_roots(2 * old.vars.len() as int), ..self }
    }

    /// Narrows the lower bound of binding `i`.
    pub open spec fn set_lb(self, i: int, v: u32) -> Q {
        if 0 <= i < self.e.vars.len() {
            Q {
                s: self.s.with_root(self.e.vars[i].root_base as int, v),
                e: self.e.with_var(i, VarBinding { lb: v, ..self.e.vars[i] }),
            }
        } else {
            self
        }
    }

    /// Narrows the upper bound of binding `i`.
    pub open spec fn set_ub(self, i: int, v: u32) -> Q {
        if 0 <= i < self.e.vars.len() {
            Q {
                s: self.s.with_root(self.e.vars[i].root_base + 1, v),
                e: self.e.with_var(i, VarBinding { ub: v, ..self.e.vars[i] }),
            }
        } else {
            self
        }
    }

    /// Descends a union spine, one recorded decision per level, to a single arm.
    pub open spec fn pick_element(self, u: u32, r: bool, fuel: nat) -> (Q, u32)
        decreases fuel,
    {
        if fuel == 0 {
            (self, u)
        } else {
            let (q, second) = self.pick(r);
            let v = if second {
                q.s.union_b(u)
            } else {
                q.s.union_a(u)
            };
            if q.s.is_union(v) {
                q.pick_element(v, r, (fuel - 1) as nat)
            } else {
                (q, v)
            }
        }
    }

    /// Reads a decision of one of the stacks.
    pub open spec fn pick(self, r: bool) -> (Q, bool) {
        (Q { e: self.e.pick(r).0, ..self }, self.e.pick(r).1)
    }

    /// Moves one of the stacks to its next combination.
    pub open spec fn next(self, r: bool) -> (Q, bool) {
        (Q { e: self.e.next(r).0, ..self }, self.e.next(r).1)
    }

    /// Records an occurrence of the variable of binding `i`.
    pub open spec fn record(self, i: int, param: Param) -> Q {
        Q { e: self.e.record(i, param), ..self }
    }
}

impl Env {
    /// The environment of a fresh query.
    pub fn new() -> (r: Env)
        ensures
            r@ == EnvV::empty(),
    {
        let r: Env = Env {
            vars: Vec::new(),
            invdepth: 0,
            lunions: UnionState::empty(),
            runions: UnionState::empty(),
            loffset: 0,
        };
        assert(r@.vars =~= Seq::<VarBinding>::empty());
        r
    }

    /// The innermost binding of `var`.
    pub fn find(&self, var: u32) -> (r: Option<usize>)
        ensures
            match r {
                Some(i) => self@.find(var) == Some(i as int) && i < self.vars.len(),
                None => self@.find(var) is None,
            },
    {
        let mut n: usize = self.vars.len();
        while n > 0
            invariant
                n <= self.vars.len(),
                lookup(self.vars@, var, self.vars.len() as int) == lookup(
                    self.vars@,
                    var,
                    n as int,
                ),
            decreases n,
        {
            n = n - 1;
            if self.vars[n].var == var {
                return Some(n);
            }
        }
        None
    }

    /// Whether `var` has an existential binding.
    pub fn is_existential(&self, var: u32) -> (r: bool)
        ensures
            r == existential(self@, var),
    {
        match self.find(var) {
            Some(i) => self.vars[i].existential,
            None => false,
        }
    }

    /// Reads a decision of one of the stacks.
    pub fn pick(&mut self, r: bool) -> (b: bool)
        ensures
            (final(self)@, b) == old(self)@.pick(r),
    {
        if r {
            self.runions.pick()
        } else {
            self.lunions.pick()
        }
    }

    /// Moves one of the stacks to its next combination.
    pub fn next_combination(&mut self, r: bool) -> (b: bool)
        ensures
            (final(self)@, b) == old(self)@.next(r),
    {
        if r {
            self.runions.next_combination()
        } else {
            self.lunions.next_combination()
        }
    }

    /// Descends a union spine to a single arm.
    pub fn pick_element(&mut self, rt: &Runtime, u: u32, r: bool, fuel: u32) -> (v: u32)
        ensures
            ((Q { s: rt@, e: final(self)@ }), v) == (Q { s: rt@, e: old(self)@ }).pick_element(
                u,
                r,
                fuel as nat,
            ),
        decreases fuel,
    {
        if fuel == 0 {
            return u;
        }
        let second: bool = self.pick(r);
        let v: u32 = if second {
            access::union_b(rt, u)
        } else {
            access::union_a(rt, u)
        };
        if access::is_union(rt, v) {
            self.pick_element(rt, v, r, fuel - 1)
        } else {
            v
        }
    }

    /// Records an occurrence of the variable of binding `i`.
    pub fn record(&mut self, i: usize, param: Param)
        ensures
            final(self)@ == old(self)@.record(i as int, param),
    {
        if param == Param::Top || i >= self.vars.len() {
            return;
        }
        let mut b: VarBinding = self.vars[i];
        if param == Param::Invariant && self.invdepth > b.depth0 {
            if b.occurs_inv < 2 {
                b.occurs_inv = b.occurs_inv + 1;
            }
        } else if b.occurs_cov < 2 {
            b.occurs_cov = b.occurs_cov + 1;
        }
        b.max_offset = -1;
        self.vars.set(i, b);
    }
}

/// Whether `var` has an existential binding in `e`.
pub open spec fn existential(e: EnvV, var: u32) -> bool {
    match e.find(var) {
        Some(i) => e.vars[i].existential,
        None => false,
    }
}

/// Narrows the lower bound of binding `i`.
pub fn set_lb(rt: &mut Runtime, e: &mut Env, i: usize, v: u32)
    ensures
        at(*final(rt), *final(e)) == at(*old(rt), *old(e)).set_lb(i as int, v),
{
    if i < e.vars.len() {
        let mut b: VarBinding = e.vars[i];
        b.lb = v;
        e.vars.set(i, b);
        rt.set_root(b.root_base, v);
    }
}

/// Narrows the upper bound of binding `i`.
pub fn set_ub(rt: &mut Runtime, e: &mut Env, i: usize, v: u32)
    ensures
        at(*final(rt), *final(e)) == at(*old(rt), *old(e)).set_ub(i as int, v),
{
    if i < e.vars.len() {
        let mut b: VarBinding = e.vars[i];
        b.ub = v;
        e.vars.set(i, b);
        set_root_after(rt, b.root_base, v);
    }
}

/// Sets the shadow-stack slot after `i`.
fn set_root_after(rt: &mut Runtime, i: usize, v: u32)
    ensures
        final(rt)@ == old(rt)@.with_root(i + 1, v),
{
    if i < rt.roots.len() {
        rt.set_root(i + 1, v);
    }
}

/// Lists the bounds of all bindings.
fn list_bounds(vars: &Vec<VarBinding>) -> (r: Vec<u32>)
    ensures
        r@ == bounds(vars@),
{
    let mut r: Vec<u32> = Vec::new();
    let mut i: usize = 0;
    while i < vars.len()
        invariant
            i <= vars.len(),
            r.len() == 2 * i,
            forall|k: int| 0 <= k < 2 * i ==> r@[k] == bounds(vars@)[k],
        decreases vars.len() - i,
    {
        r.push(vars[i].lb);
        r.push(vars[i].ub);
        i = i + 1;
    }
    assert(r@ =~= bounds(vars@));
    r
}

/// A copy of the bindings.
pub fn copy_vars(vars: &Vec<VarBinding>) -> (r: Vec<VarBinding>)
    ensures
        r@ == vars@,
{
    let mut r: Vec<VarBinding> = Vec::new();
    let mut i: usize = 0;
    while i < vars.len()
        invariant
            i <= vars.len(),
            r@ == vars@.take(i as int),
        decreases vars.len() - i,
    {
        r.push(vars[i]);
        i = i + 1;
        assert(r@ =~= vars@.take(i as int));
    }
    assert(vars@.take(vars.len() as int) =~= vars@);
    r
}

/// Takes a snapshot of the bindings.
pub fn save_vars(rt: &mut Runtime, e: &Env) -> (r: SavedVars)
    ensures
        ((Q { s: final(rt)@, e: e@ }), r@) == (Q { s: old(rt)@, e: e@ }).save(),
{
    let base: usize = rt.roots.len();
    let b: Vec<u32> = list_bounds(&e.vars);
    rt.push_roots(&b);
    SavedVars { vars: copy_vars(&e.vars), rdepth: e.runions.depth, base }
}

/// Takes the snapshot anew.
pub fn re_save_vars(rt: &mut Runtime, e: &Env, saved: &mut SavedVars)
    ensures
        ((Q { s: final(rt)@, e: e@ }), final(saved)@) == (Q { s: old(rt)@, e: e@ }).resave(
            old(saved)@,
        ),
{
    let b: Vec<u32> = list_bounds(&e.vars);
    let base: usize = saved.base;
    let n: usize = rt.roots.len();
    let mut j: usize = base;
    while j < n && j - base < b.len()
        invariant
            n == rt.roots.len(),
            base <= j,
            j <= n || j == base,
            j - base <= b.len(),
            rt@ == (State { roots: rt.roots@, ..old(rt)@ }),
            old(rt)@.roots.len() == n,
            forall|k: int| base <= k < j && k < n ==> rt.roots@[k] == b@[k - base],
            forall|k: int| 0 <= k < n && !(base <= k < j) ==> rt.roots@[k] == old(rt)@.roots[k],
        decreases n - j,
    {
        rt.roots.set(j, b[j - base]);
        j = j + 1;
    }
    assert(rt@ =~= old(rt)@.with_roots(base as int, b@));
    saved.vars = copy_vars(&e.vars);
    saved.rdepth = e.runions.depth;
}

/// Restores the bindings of a snapshot.
pub fn restore_vars(rt: &mut Runtime, e: &mut Env, saved: &SavedVars)
    ensures
        at(*final(rt), *final(e)) == at(*old(rt), *old(e)).restore(saved@),
{
    proof {
        reveal(Q::restore);
    }
    let mut i: usize = 0;
    let ghost want = at(*rt, *e).restore_from(saved@, 0);
    while i < saved.vars.len() && i < e.vars.len()
        invariant
            i <= saved.vars.len(),
            i <= e.vars.len(),
            want == at(*rt, *e).restore_from(saved@, i as int),
        decreases saved.vars.len() - i,
    {
        let mut b: VarBinding = saved.vars[i];
        b.concrete = e.vars[i].concrete;
        b.intvalued = e.vars[i].intvalued;
        e.vars.set(i, b);
        rt.set_root(b.root_base, b.lb);
        set_root_after(rt, b.root_base, b.ub);
        i = i + 1;
    }
    e.runions.depth = saved.rdepth;
}

/// The enumeration visits the other arm: after a traversal that read first arms,
/// the next combination reads the second arm at the deepest of them.
pub proof fn law_next_flips_deepest(st: UnionV)
    requires
        st.more > 0,
    ensures
        st.next().1,
        st.next().0.used == st.more,
        st.next().0.get(st.more - 1),
        forall|i: int| 0 <= i < st.more - 1 ==> st.next().0.get(i) == st.get(i),
{
}

/// A decision that was never read is first read as the first arm, which is then
/// remembered as untried.
pub proof fn law_fresh_decision(st: UnionV)
    requires
        st.depth == st.used,
        st.used < usize::MAX,
    ensures
        !st.pick().1,
        st.pick().0.more == st.depth + 1,
        st.pick().0.used == st.used + 1,
        st.pick().0.depth == st.depth + 1,
{
}

/// Restoring a snapshot gives the recorded decisions back.
pub proof fn law_restore_after_save(st: UnionV, other: UnionV, i: int)
    requires
        0 <= i < st.used <= st.bits.len(),
    ensures
        other.restored(st.saved()).get(i) == st.get(i),
        other.restored(st.saved()).depth == st.depth,
        other.restored(st.saved()).more == st.more,
        other.restored(st.saved()).used == st.used,
{
}

} // verus!
