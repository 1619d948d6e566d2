//! Subtyping of unions of plain types.
//!
//! A query on unions walks both types once for every combination of their members,
//! and remembers in a stack of decisions which member it has come to. For unions of
//! plain types the walks visit the members from left to right, each once, so that a
//! union is below another exactly if every member of the one is below some member of
//! the other.

use vstd::prelude::*;
use crate::access::MAX_NESTING;
use crate::env::{bounds, EnvV, Param, SavedV, UnionV, Q};
use crate::ground;
use crate::id;
use crate::region::REGION_SIZE;
use crate::state::State;
use crate::subtype_spec::MAX_PASSES;

verus! {

impl State {
    /// Whether `t` is a union of plain types, its unions nested less than `d` deep. A
    /// plain type is a union of one member.
    pub open spec fn union_to(self, t: u32, d: nat) -> bool
        decreases d,
    {
        if d == 0 {
            false
        } else if self.is_union(t) {
            self.union_to(self.union_a(t), (d - 1) as nat) && self.union_to(
                self.union_b(t),
                (d - 1) as nat,
            )
        } else {
            self.plain(t)
        }
    }

    /// Whether `t` is a union of plain types, and has no more members than a query
    /// makes passes.
    pub open spec fn plain_union(self, t: u32) -> bool {
        &&& self.union_to(t, MAX_NESTING as nat)
        &&& self.members(t).len() <= MAX_PASSES
    }

    /// The members of the union `t`, from left to right.
    pub open spec fn members(self, t: u32) -> Seq<u32> {
        self.flatten(t, MAX_NESTING as nat)
    }

    /// Whether the plain type `a` is below some of `ys`.
    pub open spec fn below_some(self, a: u32, ys: Seq<u32>) -> bool {
        exists|j: int|
            0 <= j < ys.len() && self.below(a, #[trigger] ys[j], 2 * self.objs.len())
    }

    /// Whether each of `xs` is below some of `ys`.
    pub open spec fn all_below_some(self, xs: Seq<u32>, ys: Seq<u32>) -> bool {
        forall|i: int| 0 <= i < xs.len() ==> self.below_some(#[trigger] xs[i], ys)
    }

    /// The arm of the union `t` that a decision picks.
    pub open spec fn arm(self, t: u32, second: bool) -> u32 {
        if second {
            self.union_b(t)
        } else {
            self.union_a(t)
        }
    }

    /// Whether the decisions `p` lead to a part of the union `t`.
    pub open spec fn points_at(self, t: u32, p: Seq<bool>, d: nat) -> bool
        decreases d,
    {
        p.len() == 0 || (d > 0 && self.is_union(t) && self.points_at(
            self.arm(t, p[0]),
            p.drop_first(),
            (d - 1) as nat,
        ))
    }

    /// The decisions `p`, and those that go on to the first member from there.
    pub open spec fn path(self, t: u32, p: Seq<bool>, d: nat) -> Seq<bool>
        decreases d,
    {
        if d > 0 && self.is_union(t) {
            let b = p.len() > 0 && p[0];
            seq![b] + self.path(self.arm(t, b), rest(p), (d - 1) as nat)
        } else {
            Seq::empty()
        }
    }

    /// The member that the decisions `p` lead to.
    pub open spec fn goal(self, t: u32, p: Seq<bool>, d: nat) -> u32
        decreases d,
    {
        if d > 0 && self.is_union(t) {
            let b = p.len() > 0 && p[0];
            self.goal(self.arm(t, b), rest(p), (d - 1) as nat)
        } else {
            t
        }
    }

    /// The members from the one that the decisions `p` lead to.
    pub open spec fn onward(self, t: u32, p: Seq<bool>, d: nat) -> Seq<u32>
        decreases d,
    {
        if d > 0 && self.is_union(t) {
            let b = p.len() > 0 && p[0];
            let here = self.onward(self.arm(t, b), rest(p), (d - 1) as nat);
            if b {
                here
            } else {
                here + self.flatten(self.union_b(t), (d - 1) as nat)
            }
        } else {
            seq![t]
        }
    }
}

/// All but the first decision.
pub open spec fn rest(p: Seq<bool>) -> Seq<bool> {
    if p.len() > 0 {
        p.drop_first()
    } else {
        p
    }
}

/// The position after the last decision for a first arm.
pub open spec fn mark(f: Seq<bool>) -> nat
    decreases f.len(),
{
    if f.len() == 0 {
        0
    } else if !f.last() {
        f.len()
    } else {
        mark(f.drop_last())
    }
}

/// The decisions that follow `f`: the last decision for a first arm is taken for the
/// second one.
pub open spec fn following(f: Seq<bool>) -> Seq<bool> {
    f.take(mark(f) - 1).push(true)
}

pub(crate) proof fn lemma_mark_bound(f: Seq<bool>)
    ensures
        mark(f) <= f.len(),
    decreases f.len(),
{
    if f.len() > 0 {
        lemma_mark_bound(f.drop_last());
    }
}

pub(crate) proof fn lemma_mark_cons(b: bool, f: Seq<bool>)
    ensures
        mark(seq![b] + f) == if mark(f) > 0 {
            mark(f) + 1
        } else if b {
            0
        } else {
            1
        },
    decreases f.len(),
{
    let g = seq![b] + f;
    if f.len() == 0 {
        assert(g.last() == b);
        assert(g.drop_last() =~= Seq::<bool>::empty());
        assert(mark(g.drop_last()) == 0);
        assert(mark(f) == 0);
    } else {
        assert(g.last() == f.last());
        assert(g.drop_last() =~= seq![b] + f.drop_last());
        lemma_mark_cons(b, f.drop_last());
    }
}

/// Without decisions, one begins at the first member.
proof fn lemma_onward_all(s: State, t: u32, d: nat)
    ensures
        s.onward(t, Seq::empty(), d) == s.flatten(t, d),
    decreases d,
{
    if d > 0 && s.is_union(t) {
        lemma_onward_all(s, s.union_a(t), (d - 1) as nat);
    }
}

/// The decisions that follow a member's lead to the next member.
proof fn lemma_following(s: State, t: u32, p: Seq<bool>, d: nat)
    requires
        s.union_to(t, d),
        s.points_at(t, p, d),
    ensures
        ({
            let f = s.path(t, p, d);
            let todo = s.onward(t, p, d);
            &&& f.len() < d
            &&& p.len() <= f.len()
            &&& f.take(p.len() as int) == p
            &&& s.points_at(t, f, d)
            &&& s.path(t, f, d) == f
            &&& s.goal(t, f, d) == s.goal(t, p, d)
            &&& s.onward(t, f, d) == todo
            &&& todo.len() > 0
            &&& todo[0] == s.goal(t, p, d)
            &&& s.plain(s.goal(t, p, d))
            &&& mark(f) == 0 ==> todo.len() == 1
            &&& mark(f) > 0 ==> s.points_at(t, following(f), d) && s.onward(t, following(f), d)
                == todo.drop_first()
        }),
    decreases d,
{
    if s.is_union(t) {
        let e: nat = (d - 1) as nat;
        let b = p.len() > 0 && p[0];
        let r = rest(p);
        let v = s.arm(t, b);
        let f1 = s.path(v, r, e);
        let f = s.path(t, p, d);
        let todo1 = s.onward(v, r, e);
        let todo = s.onward(t, p, d);
        lemma_following(s, v, r, e);
        lemma_mark_cons(b, f1);
        lemma_mark_bound(f1);
        assert(f == seq![b] + f1);
        assert(f[0] == b);
        assert(f.drop_first() =~= f1);
        assert(f.take(p.len() as int) =~= p) by {
            if p.len() > 0 {
                assert(f1.take(r.len() as int) == r);
                assert forall|i: int| 0 <= i < p.len() implies f.take(p.len() as int)[i] == p[i] by {
                    if i > 0 {
                        assert(f1.take(r.len() as int)[i - 1] == r[i - 1]);
                    }
                }
            }
        }
        if mark(f1) > 0 {
            let g1 = following(f1);
            let g = following(f);
            assert(g =~= seq![b] + g1);
            assert(g[0] == b);
            assert(g.drop_first() =~= g1);
            assert(s.onward(t, g, d) =~= todo.drop_first());
        } else if !b {
            let g = following(f);
            assert(g =~= seq![true]);
            assert(g.drop_first() =~= Seq::<bool>::empty());
            assert(s.points_at(s.union_b(t), g.drop_first(), e));
            lemma_onward_all(s, s.union_b(t), e);
            assert(s.onward(t, g, d) == s.flatten(s.union_b(t), e));
            assert(todo.drop_first() =~= s.flatten(s.union_b(t), e));
        }
    } else {
        assert(p =~= Seq::<bool>::empty());
        assert(s.path(t, p, d).take(0) =~= p);
    }
}

/// Whether the stack holds the decisions `p`.
pub open spec fn holds(w: UnionV, p: Seq<bool>) -> bool {
    w.used == p.len() && p.len() <= w.bits.len() && w.bits.take(p.len() as int) == p
}

/// Whether the stack holds the decisions `f`, all of which were read.
pub open spec fn walked(w: UnionV, f: Seq<bool>) -> bool {
    holds(w, f) && w.depth == f.len() && w.more == mark(f)
}

/// One of the two stacks.
pub open spec fn stack(e: EnvV, r: bool) -> UnionV {
    if r {
        e.r
    } else {
        e.l
    }
}

/// One decision read after the decisions `g`, when the stack holds `g` and `p`.
pub(crate) proof fn lemma_pick_one(w: UnionV, g: Seq<bool>, p: Seq<bool>)
    requires
        w.depth == g.len(),
        w.more == mark(g),
        holds(w, g + p),
        w.used < usize::MAX,
    ensures
        ({
            let (w1, b) = w.pick();
            &&& b == (p.len() > 0 && p[0])
            &&& w1.depth == g.len() + 1
            &&& w1.more == mark(g.push(b))
            &&& holds(w1, g.push(b) + rest(p))
            &&& w1.used <= w.used + 1
        }),
{
    let (w1, b) = w.pick();
    let n = g.len() as int;
    if p.len() == 0 {
        assert(g + p =~= g);
        assert(w1.bits[n] == false);
        assert(w1.bits.take(n + 1) =~= g.push(false)) by {
            assert forall|i: int| 0 <= i < n implies w1.bits[i] == g[i] by {
                assert(w.bits.take(n)[i] == g[i]);
            }
        }
        assert(g.push(b) + rest(p) =~= g.push(false));
    } else {
        assert(w.bits.take((g + p).len() as int)[n] == (g + p)[n]);
        assert(g.push(b) + rest(p) =~= g + p);
    }
    assert(g.push(b).drop_last() =~= g);
}

/// The decisions read on the way to a member.
proof fn lemma_pick(q: Q, t: u32, r: bool, g: Seq<bool>, p: Seq<bool>, d: nat, fuel: nat)
    requires
        q.s.is_union(t),
        q.s.union_to(t, d),
        q.s.points_at(t, p, d),
        stack(q.e, r).depth == g.len(),
        stack(q.e, r).more == mark(g),
        holds(stack(q.e, r), g + p),
        g.len() + p.len() + d < usize::MAX,
        p.len() <= d,
        d <= fuel,
    ensures
        ({
            let (q1, a) = q.pick_element(t, r, fuel);
            &&& a == q.s.goal(t, p, d)
            &&& q1.s == q.s
            &&& walked(stack(q1.e, r), g + q.s.path(t, p, d))
            &&& r ==> q1.e == (EnvV { r: q1.e.r, ..q.e })
            &&& !r ==> q1.e == (EnvV { l: q1.e.l, ..q.e })
        }),
    decreases d,
{
    let w = stack(q.e, r);
    lemma_pick_one(w, g, p);
    let (q1, b) = q.pick(r);
    let v = q.s.arm(t, b);
    let e: nat = (d - 1) as nat;
    let g1 = g.push(b);
    let p1 = rest(p);
    if p.len() == 0 {
        assert(p1 =~= Seq::<bool>::empty());
    }
    let f1 = q.s.path(v, p1, e);
    assert(q.s.points_at(v, p1, e));
    assert(g + q.s.path(t, p, d) =~= g1 + f1);
    if q.s.is_union(v) {
        lemma_pick(q1, v, r, g1, p1, e, (fuel - 1) as nat);
    } else {
        assert(p1 =~= Seq::<bool>::empty());
        assert(f1 =~= Seq::<bool>::empty());
        assert(g1 + p1 =~= g1);
        assert(g1 + f1 =~= g1);
        assert(q.s.goal(v, p1, e) == v);
    }
}

/// Whether the world is that of a fresh query, but for the decisions.
pub open spec fn fresh(q: Q) -> bool {
    q.e.vars.len() == 0 && q.e.loffset == 0 && q.e.invdepth == 0
}

/// What every step of a query on unions of plain types needs.
pub open spec fn fit(s: State, x: u32, y: u32, fuel: nat) -> bool {
    &&& s.types_agree()
    &&& 8 * s.objs.len() <= REGION_SIZE
    &&& s.union_to(x, MAX_NESTING as nat)
    &&& s.union_to(y, MAX_NESTING as nat)
    &&& 8 * s.objs.len() + 6 <= fuel <= i32::MAX
}

/// Whether the walk ends before it comes to a decision.
pub open spec fn quick(s: State, x: u32, y: u32) -> bool {
    x == y || (s.is_union(x) && s.obviously_egal(x, y, MAX_NESTING as nat))
}

/// Whether the walk ends before it comes to a decision on the right.
pub open spec fn shown(s: State, a: u32, y: u32) -> bool {
    s.is_union(y) && s.obviously_in_union(y, a, MAX_NESTING as nat)
}

/// The walk on the left of a query.
#[verifier::rlimit(30)]
#[verifier::spinoff_prover]
proof fn lemma_left(q: Q, x: u32, y: u32, pl: Seq<bool>, fuel: nat)
    requires
        fresh(q),
        fit(q.s, x, y, fuel),
        !quick(q.s, x, y),
        holds(q.e.l, pl),
        q.s.points_at(x, pl, MAX_NESTING as nat),
        q.e.l.depth == 0,
        q.e.l.more == 0,
    ensures
        ({
            let d = MAX_NESTING as nat;
            let q1 = q.pick_element(x, false, d).0;
            let q2 = if q.s.is_union(x) {
                q1
            } else {
                q
            };
            &&& q.sub(x, y, Param::Top, fuel) == q2.sub_right(
                q.s.goal(x, pl, d),
                y,
                Param::Top,
                fuel,
            )
            &&& q2.s == q.s
            &&& q2.e == (EnvV { l: q2.e.l, ..q.e })
            &&& walked(q2.e.l, q.s.path(x, pl, d))
        }),
{
    reveal(Q::sub);
    reveal(Q::sub_right);
    let d = MAX_NESTING as nat;
    let g = Seq::<bool>::empty();
    lemma_following(q.s, x, pl, d);
    assert(g + pl =~= pl);
    assert(g + q.s.path(x, pl, d) =~= q.s.path(x, pl, d));
    if q.s.is_union(x) {
        lemma_pick(q, x, false, g, pl, d, d);
        let (q1, a) = q.pick_element(x, false, d);
        let walk = q1.sub_right(a, y, Param::Top, fuel);
        assert(q.sub(x, y, Param::Top, fuel) == walk);
    } else {
        assert(pl =~= g);
        let walk = q.sub_right(x, y, Param::Top, fuel);
        assert(q.sub(x, y, Param::Top, fuel) == walk);
    }
}

/// One walk of a query: it reads the decisions that lead to one member on each side,
/// and compares these.
#[verifier::rlimit(30)]
#[verifier::spinoff_prover]
proof fn lemma_pass(q: Q, x: u32, y: u32, pl: Seq<bool>, pr: Seq<bool>, fuel: nat)
    requires
        fresh(q),
        fit(q.s, x, y, fuel),
        !quick(q.s, x, y),
        holds(q.e.l, pl),
        holds(q.e.r, pr),
        q.s.points_at(x, pl, MAX_NESTING as nat),
        q.s.points_at(y, pr, MAX_NESTING as nat),
        q.e.l.depth == 0,
        q.e.l.more == 0,
        q.e.r.depth == 0,
        q.e.r.more == 0,
    ensures
        ({
            let d = MAX_NESTING as nat;
            let a = q.s.goal(x, pl, d);
            let (q1, ok) = q.sub(x, y, Param::Top, fuel);
            &&& q1.s == q.s
            &&& fresh(q1)
            &&& walked(q1.e.l, q.s.path(x, pl, d))
            &&& shown(q.s, a, y) ==> ok
            &&& !shown(q.s, a, y) ==> {
                &&& ok == q.s.below(a, q.s.goal(y, pr, d), 2 * q.s.objs.len())
                &&& walked(q1.e.r, q.s.path(y, pr, d))
            }
        }),
{
    reveal(Q::sub_right);
    reveal(Q::sub_vars);
    let d = MAX_NESTING as nat;
    let a = q.s.goal(x, pl, d);
    let g = Seq::<bool>::empty();
    lemma_left(q, x, y, pl, fuel);
    lemma_following(q.s, x, pl, d);
    lemma_following(q.s, y, pr, d);
    let q1 = q.pick_element(x, false, d).0;
    let q2 = if q.s.is_union(x) {
        q1
    } else {
        q
    };
    let len = q.s.objs.len();
    assert(g + pr =~= pr);
    assert(g + q.s.path(y, pr, d) =~= q.s.path(y, pr, d));
    if !q.s.is_union(y) {
        assert(pr =~= g);
        ground::lemma_vars(q2, a, len, y, len, Param::Top, 2 * len, fuel);
        let walk = q2.sub_vars(a, y, Param::Top, fuel);
        assert(q2.sub_right(a, y, Param::Top, fuel) == walk);
    } else if !shown(q.s, a, y) {
        lemma_pick(q2, y, true, g, pr, d, d);
        let (q3, b) = q2.pick_element(y, true, d);
        ground::lemma_vars(q3, a, len, b, len, Param::Top, 2 * len, fuel);
        let walk = q3.sub_vars(a, b, Param::Top, fuel);
        assert(q2.sub_right(a, y, Param::Top, fuel) == walk);
    } else {
        assert(q2.sub_right(a, y, Param::Top, fuel) == (q2, true));
    }
}

/// The world after a fruitless walk, ready for the next one.
pub(crate) proof fn lemma_retry(q: Q, se: SavedV)
    requires
        fresh(q),
        se.vars.len() == 0,
    ensures
        ({
            let q2 = q.next(true).0.restore(se);
            &&& q2.s == q.s
            &&& q2.e == (EnvV {
                r: UnionV { depth: se.rdepth, ..q.e.r.next().0 },
                ..q.e
            })
        }),
{
    reveal(Q::restore);
}

/// The next combination of a stack that was walked.
pub(crate) proof fn lemma_step(w: UnionV, f: Seq<bool>)
    requires
        walked(w, f),
        mark(f) > 0,
    ensures
        w.next().1,
        holds(w.next().0, following(f)),
{
    lemma_mark_bound(f);
    let k = mark(f) as int;
    let w1 = w.next().0;
    assert(w1.bits.take(k) =~= following(f)) by {
        assert forall|i: int| 0 <= i < k - 1 implies w1.bits[i] == f[i] by {
            assert(w.bits.take(f.len() as int)[i] == f[i]);
        }
    }
}

/// The search on the right: one member after the other, until one is above.
#[verifier::rlimit(40)]
#[verifier::spinoff_prover]
proof fn lemma_search(
    q: Q,
    x: u32,
    y: u32,
    pl: Seq<bool>,
    pr: Seq<bool>,
    se: SavedV,
    fuel: nat,
    n: nat,
)
    requires
        fresh(q),
        fuel > 0,
        fit(q.s, x, y, (fuel - 1) as nat),
        !quick(q.s, x, y),
        holds(q.e.l, pl),
        holds(q.e.r, pr),
        q.s.points_at(x, pl, MAX_NESTING as nat),
        q.s.points_at(y, pr, MAX_NESTING as nat),
        se.vars.len() == 0,
        n >= q.s.onward(y, pr, MAX_NESTING as nat).len(),
    ensures
        ({
            let d = MAX_NESTING as nat;
            let a = q.s.goal(x, pl, d);
            let (q1, ok) = q.exists_loop(x, y, Param::Top, se, fuel, n);
            &&& q1.s == q.s
            &&& ok == (shown(q.s, a, y) || q.s.below_some(a, q.s.onward(y, pr, d)))
            &&& ok ==> fresh(q1) && walked(q1.e.l, q.s.path(x, pl, d))
        }),
    decreases n,
{
    reveal(Q::exists_loop);
    reveal(Q::sub);
    let d = MAX_NESTING as nat;
    let f: nat = (fuel - 1) as nat;
    let a = q.s.goal(x, pl, d);
    let todo = q.s.onward(y, pr, d);
    let q0 = q.with_env(EnvV { l: q.e.l.rewound(), r: q.e.r.rewound(), ..q.e });
    lemma_following(q.s, x, pl, d);
    lemma_following(q.s, y, pr, d);
    lemma_pass(q0, x, y, pl, pr, f);
    let (q1, ok) = q0.sub(x, y, Param::Top, f);
    if ok {
        if !shown(q.s, a, y) {
            assert(q.s.below(a, todo[0], 2 * q.s.objs.len()));
        }
        assert(q.exists_loop(x, y, Param::Top, se, fuel, n) == (q1, true));
    } else {
        let p = q.s.path(y, pr, d);
        lemma_retry(q1, se);
        let (q2, more) = q1.next(true);
        let q3 = q2.restore(se);
        if mark(p) > 0 {
            lemma_step(q1.e.r, p);
            let pl1 = q.s.path(x, pl, d);
            lemma_search(q3, x, y, pl1, following(p), se, fuel, (n - 1) as nat);
            let left = q.s.onward(y, following(p), d);
            assert(left == todo.drop_first());
            let rest = q3.exists_loop(x, y, Param::Top, se, fuel, (n - 1) as nat);
            assert(q.exists_loop(x, y, Param::Top, se, fuel, n) == rest);
            let m = 2 * q.s.objs.len();
            assert(q.s.below_some(a, todo) == q.s.below_some(a, left)) by {
                if q.s.below_some(a, left) {
                    let j = choose|j: int|
                        0 <= j < left.len() && q.s.below(a, #[trigger] left[j], m);
                    assert(left[j] == todo[j + 1]);
                }
                if q.s.below_some(a, todo) {
                    let j = choose|j: int|
                        0 <= j < todo.len() && q.s.below(a, #[trigger] todo[j], m);
                    assert(left[j - 1] == todo[j]);
                }
            }
        } else {
            assert(q.exists_loop(x, y, Param::Top, se, fuel, n) == (q3, false));
            assert(todo.len() == 1);
        }
    }
}

/// A member that is obviously in a union is below one of its members.
pub(crate) proof fn lemma_shown(s: State, y: u32, a: u32, d: nat, fuel: nat)
    requires
        s.types_agree(),
        s.union_to(y, d),
        s.plain(a),
        s.obviously_in_union(y, a, fuel),
    ensures
        s.below_some(a, s.flatten(y, d)),
    decreases d,
{
    let ys = s.flatten(y, d);
    if s.is_union(y) {
        let e: nat = (d - 1) as nat;
        let g: nat = (fuel - 1) as nat;
        let xs = s.flatten(s.union_a(y), e);
        let zs = s.flatten(s.union_b(y), e);
        let m = 2 * s.objs.len();
        if s.obviously_in_union(s.union_a(y), a, g) {
            lemma_shown(s, s.union_a(y), a, e, g);
            let j = choose|j: int| 0 <= j < xs.len() && s.below(a, #[trigger] xs[j], m);
            assert(ys[j] == xs[j]);
        } else {
            lemma_shown(s, s.union_b(y), a, e, g);
            let j = choose|j: int| 0 <= j < zs.len() && s.below(a, #[trigger] zs[j], m);
            assert(ys[xs.len() + j] == zs[j]);
        }
    } else {
        let len = s.objs.len();
        ground::lemma_egal_below(s, y, len, a, len, 2 * len, (fuel - 1) as nat);
        assert(ys[0] == y);
    }
}

/// Members of unions that are obviously equal are below each other.
pub(crate) proof fn lemma_egal_members(s: State, x: u32, y: u32, d: nat, fuel: nat)
    requires
        s.types_agree(),
        s.union_to(x, d),
        s.union_to(y, d),
        s.obviously_egal(x, y, fuel),
    ensures
        s.all_below_some(s.flatten(x, d), s.flatten(y, d)),
    decreases d,
{
    let xs = s.flatten(x, d);
    let ys = s.flatten(y, d);
    let m = 2 * s.objs.len();
    if x == y {
        assert forall|i: int| 0 <= i < xs.len() implies s.below_some(#[trigger] xs[i], ys) by {
            assert(s.below(xs[i], ys[i], m));
        }
    } else if s.is_union(x) {
        let e: nat = (d - 1) as nat;
        let g: nat = (fuel - 1) as nat;
        let xa = s.flatten(s.union_a(x), e);
        let xb = s.flatten(s.union_b(x), e);
        let ya = s.flatten(s.union_a(y), e);
        let yb = s.flatten(s.union_b(y), e);
        lemma_egal_members(s, s.union_a(x), s.union_a(y), e, g);
        lemma_egal_members(s, s.union_b(x), s.union_b(y), e, g);
        assert forall|i: int| 0 <= i < xs.len() implies s.below_some(#[trigger] xs[i], ys) by {
            if i < xa.len() {
                assert(xs[i] == xa[i]);
                let j = choose|j: int| 0 <= j < ya.len() && s.below(xa[i], #[trigger] ya[j], m);
                assert(ys[j] == ya[j]);
            } else {
                assert(xs[i] == xb[i - xa.len()]);
                let k = i - xa.len();
                assert(s.below_some(xb[k], yb));
                let j = choose|j: int| 0 <= j < yb.len() && s.below(xb[k], #[trigger] yb[j], m);
                assert(ys[ya.len() + j] == yb[j]);
            }
        }
    } else {
        let len = s.objs.len();
        ground::lemma_egal_below(s, x, len, y, len, m, fuel);
        assert(xs[0] == x);
        assert(ys[0] == y);
    }
}

/// The enumeration on the left: one member after the other, as long as each is below
/// some member on the right.
#[verifier::rlimit(40)]
#[verifier::spinoff_prover]
proof fn lemma_enumerate(
    q: Q,
    x: u32,
    y: u32,
    pl: Seq<bool>,
    se: SavedV,
    fuel: nat,
    n: nat,
)
    requires
        fresh(q),
        fuel > 0,
        fit(q.s, x, y, (fuel - 1) as nat),
        !quick(q.s, x, y),
        holds(q.e.l, pl),
        q.s.points_at(x, pl, MAX_NESTING as nat),
        se.vars.len() == 0,
        n >= q.s.onward(x, pl, MAX_NESTING as nat).len(),
        q.s.members(y).len() <= MAX_PASSES,
    ensures
        ({
            let (q1, ok) = q.forall_loop(x, y, Param::Top, se, fuel, n);
            &&& q1.s == q.s
            &&& ok == q.s.all_below_some(
                q.s.onward(x, pl, MAX_NESTING as nat),
                q.s.members(y),
            )
        }),
    decreases n,
{
    reveal(Q::forall_loop);
    reveal(Q::exists_loop);
    let d = MAX_NESTING as nat;
    let s = q.s;
    let a = s.goal(x, pl, d);
    let ys = s.members(y);
    let todo = s.onward(x, pl, d);
    let none = Seq::<bool>::empty();
    let q0 = q.with_env(EnvV { r: UnionV { used: 0, ..q.e.r }, ..q.e });
    lemma_following(s, x, pl, d);
    lemma_onward_all(s, y, d);
    assert(q0.e.r.bits.take(0) =~= none);
    lemma_search(q0, x, y, pl, none, se, fuel, MAX_PASSES as nat);
    if shown(s, a, y) {
        lemma_shown(s, y, a, d, d);
    }
    let (q1, ok) = q0.exists_loop(x, y, Param::Top, se, fuel, MAX_PASSES as nat);
    assert(ok == s.below_some(todo[0], ys));
    if ok {
        let p = s.path(x, pl, d);
        let (q2, more) = q1.next(false);
        if mark(p) > 0 {
            lemma_step(q1.e.l, p);
            let (q3, se1) = q2.resave(se);
            assert(bounds(q2.e.vars) =~= Seq::<u32>::empty());
            assert(q3 =~= q2);
            lemma_enumerate(q3, x, y, following(p), se1, fuel, (n - 1) as nat);
            let left = s.onward(x, following(p), d);
            assert(left == todo.drop_first());
            let rest = q3.forall_loop(x, y, Param::Top, se1, fuel, (n - 1) as nat);
            assert(q.forall_loop(x, y, Param::Top, se, fuel, n) == rest);
            assert(s.all_below_some(todo, ys) == s.all_below_some(left, ys)) by {
                if s.all_below_some(left, ys) {
                    assert forall|i: int| 0 <= i < todo.len() implies s.below_some(
                        #[trigger] todo[i],
                        ys,
                    ) by {
                        if i > 0 {
                            assert(todo[i] == left[i - 1]);
                        }
                    }
                }
                if s.all_below_some(todo, ys) {
                    assert forall|i: int| 0 <= i < left.len() implies s.below_some(
                        #[trigger] left[i],
                        ys,
                    ) by {
                        assert(left[i] == todo[i + 1]);
                    }
                }
            }
        } else {
            assert(q.forall_loop(x, y, Param::Top, se, fuel, n) == (q2, true));
            assert(todo.len() == 1);
        }
    } else {
        assert(q.forall_loop(x, y, Param::Top, se, fuel, n) == (q1, false));
    }
}

pub(crate) proof fn lemma_union_same(s: State, e: State, t: u32, d: nat)
    requires
        ground::same_objects(s, e),
    ensures
        s.union_to(t, d) == e.union_to(t, d),
        s.flatten(t, d) == e.flatten(t, d),
    decreases d,
{
    if d > 0 {
        if s.is_union(t) {
            lemma_union_same(s, e, s.union_a(t), (d - 1) as nat);
            lemma_union_same(s, e, s.union_b(t), (d - 1) as nat);
        } else {
            ground::lemma_plain_same(s, e, t, s.objs.len());
        }
    }
}

pub(crate) proof fn lemma_members_same(s: State, e: State, xs: Seq<u32>, ys: Seq<u32>)
    requires
        ground::same_objects(s, e),
        s.all_below_some(xs, ys),
    ensures
        e.all_below_some(xs, ys),
{
    let m = 2 * s.objs.len();
    assert forall|i: int| 0 <= i < xs.len() implies e.below_some(#[trigger] xs[i], ys) by {
        assert(s.below_some(xs[i], ys));
        let j = choose|j: int| 0 <= j < ys.len() && s.below(xs[i], #[trigger] ys[j], m);
        ground::lemma_below_same(s, e, xs[i], ys[j], m);
    }
}

pub(crate) proof fn lemma_egal_same(s: State, e: State, x: u32, y: u32, d: nat, fuel: nat)
    requires
        ground::same_objects(s, e),
        s.types_agree(),
        s.union_to(x, d),
        s.union_to(y, d),
        s.obviously_egal(x, y, fuel),
    ensures
        e.obviously_egal(x, y, fuel),
    decreases d,
{
    if x != y {
        if s.is_union(x) && s.is_union(y) {
            let f: nat = (fuel - 1) as nat;
            lemma_egal_same(s, e, s.union_a(x), s.union_a(y), (d - 1) as nat, f);
            lemma_egal_same(s, e, s.union_b(x), s.union_b(y), (d - 1) as nat, f);
        } else {
            ground::lemma_egal_same(s, e, x, y, s.objs.len(), fuel);
        }
    }
}

/// A walk that ends at once.
pub(crate) proof fn lemma_quick(s: State, x: u32, y: u32, fuel: nat)
    requires
        fuel >= 3,
        s.types_agree(),
        s.union_to(x, MAX_NESTING as nat),
        s.union_to(y, MAX_NESTING as nat),
        quick(s, x, y),
    ensures
        s.subtype(x, y, fuel) == (s, true),
{
    reveal(Q::sub);
    let q = Q { s: s.push_roots(seq![x, y]), e: EnvV::empty() };
    if x != y {
        lemma_egal_same(s, q.s, x, y, MAX_NESTING as nat, MAX_NESTING as nat);
    }
    assert(q.sub(x, y, Param::Top, (fuel - 2) as nat) == (q, true));
    ground::lemma_once(s, x, y, true, fuel);
}

/// A union of plain types is below another exactly if each of its members is below
/// some member of the other. The answer leaves no trace, and is the same for every
/// depth that has room for both.
pub proof fn law_union_query(s: State, x: u32, y: u32, fuel: nat)
    requires
        s.types_agree(),
        s.plain_union(x),
        s.plain_union(y),
        8 * s.objs.len() <= REGION_SIZE,
        8 * s.objs.len() + 8 <= fuel <= MAX_NESTING,
    ensures
        s.subtype(x, y, fuel).0 == s,
        s.subtype(x, y, fuel).1 == s.all_below_some(s.members(x), s.members(y)),
{
    let d = MAX_NESTING as nat;
    if quick(s, x, y) {
        lemma_quick(s, x, y, fuel);
        lemma_egal_members(s, x, y, d, d);
    } else {
        reveal(State::subtype);
        reveal(Q::forall_exists);
        reveal(Q::forall_loop);
        let t = s.push_roots(seq![x, y]);
        let q = Q { s: t, e: EnvV::empty() };
        let (q1, se) = q.save();
        assert(bounds(q.e.vars) =~= Seq::<u32>::empty());
        assert(t.push_roots(Seq::<u32>::empty()) =~= t);
        assert(q1 =~= q);
        ground::lemma_agree_same(s, t);
        lemma_union_same(s, t, x, d);
        lemma_union_same(s, t, y, d);
        if quick(t, x, y) {
            lemma_egal_same(t, s, x, y, d, d);
        }
        let none = Seq::<bool>::empty();
        assert(q.e.l.bits.take(0) =~= none);
        lemma_onward_all(t, x, d);
        let f: nat = (fuel - 1) as nat;
        lemma_enumerate(q, x, y, none, se, f, MAX_PASSES as nat);
        let walk = q.forall_loop(x, y, Param::Top, se, f, MAX_PASSES as nat);
        assert(q.with_env(EnvV { l: UnionV { used: 0, ..q.e.l }, ..q.e }) =~= q);
        assert(walk.0.release(se).s =~= t);
        assert(t.pop_roots(2) =~= s);
        let xs = s.members(x);
        let ys = s.members(y);
        if s.all_below_some(xs, ys) {
            lemma_members_same(s, t, xs, ys);
        }
        if t.all_below_some(xs, ys) {
            lemma_members_same(t, s, xs, ys);
        }
    }
}

/// A plain type is a union of one member.
pub proof fn law_plain_is_a_union(s: State, t: u32)
    requires
        s.types_agree(),
        s.plain(t),
    ensures
        s.plain_union(t),
        s.members(t) == seq![t],
{
}

/// The arms of a union of plain types are such unions, and their members are its
/// members.
proof fn lemma_arms(s: State, u: u32)
    requires
        s.types_agree(),
        s.plain_union(u),
        s.is_union(u),
    ensures
        s.plain_union(s.union_a(u)),
        s.plain_union(s.union_b(u)),
        s.members(u) == s.members(s.union_a(u)) + s.members(s.union_b(u)),
{
    let d = MAX_NESTING as nat;
    let e: nat = (d - 1) as nat;
    lemma_roomy(s, s.union_a(u), e);
    lemma_roomy(s, s.union_b(u), e);
}

pub(crate) proof fn lemma_roomy(s: State, t: u32, d: nat)
    requires
        s.union_to(t, d),
    ensures
        s.union_to(t, d + 1),
        s.flatten(t, d + 1) == s.flatten(t, d),
    decreases d,
{
    if s.is_union(t) {
        lemma_roomy(s, s.union_a(t), (d - 1) as nat);
        lemma_roomy(s, s.union_b(t), (d - 1) as nat);
    }
}

/// A union is the least type above its arms: it is below a type exactly if both arms
/// are.
pub proof fn law_union_is_least(s: State, u: u32, c: u32)
    requires
        s.types_agree(),
        s.plain_union(u),
        s.plain_union(c),
        s.is_union(u),
        8 * s.objs.len() <= REGION_SIZE,
    ensures
        s.subtype(u, c, MAX_NESTING as nat).1 <==> s.subtype(
            s.union_a(u),
            c,
            MAX_NESTING as nat,
        ).1 && s.subtype(s.union_b(u), c, MAX_NESTING as nat).1,
{
    let f = MAX_NESTING as nat;
    let xs = s.members(u);
    let xa = s.members(s.union_a(u));
    let xb = s.members(s.union_b(u));
    let ys = s.members(c);
    lemma_arms(s, u);
    law_union_query(s, u, c, f);
    law_union_query(s, s.union_a(u), c, f);
    law_union_query(s, s.union_b(u), c, f);
    if s.all_below_some(xs, ys) {
        assert forall|i: int| 0 <= i < xa.len() implies s.below_some(#[trigger] xa[i], ys) by {
            assert(xs[i] == xa[i]);
        }
        assert forall|i: int| 0 <= i < xb.len() implies s.below_some(#[trigger] xb[i], ys) by {
            assert(xs[xa.len() + i] == xb[i]);
        }
    }
    if s.all_below_some(xa, ys) && s.all_below_some(xb, ys) {
        assert forall|i: int| 0 <= i < xs.len() implies s.below_some(#[trigger] xs[i], ys) by {
            if i < xa.len() {
                assert(xs[i] == xa[i]);
            } else {
                assert(xs[i] == xb[i - xa.len()]);
            }
        }
    }
}

/// A union is above its arms: what is below an arm is below the union; and a plain
/// type is below the union only if it is below an arm.
pub proof fn law_union_is_above(s: State, c: u32, u: u32)
    requires
        s.types_agree(),
        s.plain_union(c),
        s.plain_union(u),
        s.is_union(u),
        8 * s.objs.len() <= REGION_SIZE,
    ensures
        s.subtype(c, s.union_a(u), MAX_NESTING as nat).1 || s.subtype(
            c,
            s.union_b(u),
            MAX_NESTING as nat,
        ).1 ==> s.subtype(c, u, MAX_NESTING as nat).1,
        !s.is_union(c) && s.subtype(c, u, MAX_NESTING as nat).1 ==> s.subtype(
            c,
            s.union_a(u),
            MAX_NESTING as nat,
        ).1 || s.subtype(c, s.union_b(u), MAX_NESTING as nat).1,
{
    let f = MAX_NESTING as nat;
    let m = 2 * s.objs.len();
    let xs = s.members(c);
    let ys = s.members(u);
    let ya = s.members(s.union_a(u));
    let yb = s.members(s.union_b(u));
    lemma_arms(s, u);
    law_union_query(s, c, u, f);
    law_union_query(s, c, s.union_a(u), f);
    law_union_query(s, c, s.union_b(u), f);
    assert forall|a: u32| #[trigger] s.below_some(a, ys) == (s.below_some(a, ya) || s.below_some(
        a,
        yb,
    )) by {
        if s.below_some(a, ya) {
            let j = choose|j: int| 0 <= j < ya.len() && s.below(a, #[trigger] ya[j], m);
            assert(ys[j] == ya[j]);
        }
        if s.below_some(a, yb) {
            let j = choose|j: int| 0 <= j < yb.len() && s.below(a, #[trigger] yb[j], m);
            assert(ys[ya.len() + j] == yb[j]);
        }
        if s.below_some(a, ys) {
            let j = choose|j: int| 0 <= j < ys.len() && s.below(a, #[trigger] ys[j], m);
            if j < ya.len() {
                assert(ys[j] == ya[j]);
            } else {
                assert(ys[j] == yb[j - ya.len()]);
            }
        }
    }
    assert forall|i: int| 0 <= i < xs.len() && (s.below_some(xs[i], ya) || s.below_some(
        xs[i],
        yb,
    )) implies s.below_some(#[trigger] xs[i], ys) by {}
    if !s.is_union(c) {
        assert(xs =~= seq![c]);
        assert(xs[0] == c);
    }
}

/// `Any` is above every union of plain types, and `Union{}` is below it.
pub proof fn law_unions_lie_between(s: State, u: u32)
    requires
        s.types_agree(),
        s.plain_union(u),
        s.plain(s.builtin(id::ANY)),
        s.plain(s.builtin(id::BOTTOM)),
        8 * s.objs.len() <= REGION_SIZE,
    ensures
        s.subtype(u, s.builtin(id::ANY), MAX_NESTING as nat) == (s, true),
        s.subtype(s.builtin(id::BOTTOM), u, MAX_NESTING as nat) == (s, true),
{
    let f = MAX_NESTING as nat;
    let m = 2 * s.objs.len();
    let any = s.builtin(id::ANY);
    let bottom = s.builtin(id::BOTTOM);
    let us = s.members(u);
    law_plain_is_a_union(s, any);
    law_plain_is_a_union(s, bottom);
    law_union_query(s, u, any, f);
    law_union_query(s, bottom, u, f);
    assert forall|i: int| 0 <= i < us.len() implies s.below_some(
        #[trigger] us[i],
        seq![any],
    ) by {
        assert(s.below(us[i], seq![any][0], m));
    }
    lemma_some_member(s, u, f);
    assert(s.below(bottom, us[0], m));
    assert(s.below_some(seq![bottom][0], us));
}

pub(crate) proof fn lemma_some_member(s: State, t: u32, d: nat)
    ensures
        s.flatten(t, d).len() > 0,
    decreases d,
{
    if d > 0 && s.is_union(t) {
        lemma_some_member(s, s.union_a(t), (d - 1) as nat);
    }
}

} // verus!
