//! Subtyping of tuples of unions.
//!
//! A query on tuples whose elements are unions of plain types walks all elements at
//! once: the decisions of the elements stand in one stack, one element after the other.
//! A walk stops at the first element that fails, and the next one changes a decision at
//! or before it, so that no combination is left out that might succeed. The outcome is
//! that of the elements one by one.

use vstd::prelude::*;
use crate::access::MAX_NESTING;
use crate::env::{bounds, EnvV, Param, SavedV, UnionV, Q};
use crate::ground;
use crate::id;
use crate::region::{NULL, REGION_SIZE};
use crate::state::State;
use crate::subtype::law_subtype_reflexive;
use crate::subtype_spec::MAX_PASSES;
use crate::unions::{
    following, fresh, holds, law_union_query, lemma_egal_members, lemma_members_same,
    lemma_pick_one, lemma_retry, lemma_roomy, lemma_shown, lemma_some_member, lemma_step,
    lemma_union_same, mark, quick, rest, shown, stack, walked,
};

verus! {

/// A row of unions that are resolved together: the unions, and which of them are
/// resolved by decisions at all; `k` bounds their nesting.
pub struct Row {
    pub s: State,
    pub xs: Seq<u32>,
    pub open: Seq<bool>,
    pub k: nat,
}

impl Row {
    pub open spec fn ok(self) -> bool {
        &&& self.open.len() == self.xs.len()
        &&& forall|i: int| 0 <= i < self.xs.len() ==> self.s.union_to(#[trigger] self.xs[i], self.k)
    }

    /// Whether a decision is taken at the part `v` of union number `i`.
    pub open spec fn splits(self, i: int, v: u32, d: nat) -> bool {
        d > 0 && self.s.is_union(v) && self.open[i]
    }

    /// Whether the decisions `p` lead to a place of the row, from part `v` of union `i`.
    pub open spec fn valid(self, i: int, v: u32, p: Seq<bool>, d: nat) -> bool
        decreases self.xs.len() - i, d,
    {
        if p.len() == 0 {
            true
        } else if self.splits(i, v, d) {
            self.valid(i, self.s.arm(v, p[0]), p.drop_first(), (d - 1) as nat)
        } else if 0 <= i && i + 1 < self.xs.len() {
            self.valid(i + 1, self.xs[i + 1], p, self.k)
        } else {
            false
        }
    }

    /// The decisions up to union number `j`: those of `p`, then first arms.
    pub open spec fn path(self, i: int, v: u32, p: Seq<bool>, d: nat, j: int) -> Seq<bool>
        decreases self.xs.len() - i, d,
    {
        if self.splits(i, v, d) {
            let b = p.len() > 0 && p[0];
            seq![b] + self.path(i, self.s.arm(v, b), rest(p), (d - 1) as nat, j)
        } else if 0 <= i < j && i + 1 < self.xs.len() {
            self.path(i + 1, self.xs[i + 1], p, self.k, j)
        } else {
            Seq::empty()
        }
    }

    /// The decisions of `p` beyond those that lead past union number `j`.
    pub open spec fn tail(self, i: int, v: u32, p: Seq<bool>, d: nat, j: int) -> Seq<bool>
        decreases self.xs.len() - i, d,
    {
        if self.splits(i, v, d) {
            let b = p.len() > 0 && p[0];
            self.tail(i, self.s.arm(v, b), rest(p), (d - 1) as nat, j)
        } else if 0 <= i < j && i + 1 < self.xs.len() {
            self.tail(i + 1, self.xs[i + 1], p, self.k, j)
        } else {
            p
        }
    }

    /// The members that the decisions `p` lead to.
    pub open spec fn goals(self, i: int, v: u32, p: Seq<bool>, d: nat) -> Seq<u32>
        decreases self.xs.len() - i, d,
    {
        if self.splits(i, v, d) {
            let b = p.len() > 0 && p[0];
            self.goals(i, self.s.arm(v, b), rest(p), (d - 1) as nat)
        } else if 0 <= i && i + 1 < self.xs.len() {
            seq![v] + self.goals(i + 1, self.xs[i + 1], p, self.k)
        } else {
            seq![v]
        }
    }

    /// Whether the decisions `p` are all read up to union number `j`.
    pub open spec fn settles(self, i: int, v: u32, p: Seq<bool>, d: nat, j: int) -> bool {
        p.len() <= self.path(i, v, p, d, j).len()
    }

    /// Whether the members `c` are those that `p` leads to, or come after them.
    pub open spec fn ahead(self, i: int, v: u32, p: Seq<bool>, d: nat, c: Seq<u32>) -> bool
        decreases self.xs.len() - i, d,
    {
        if self.splits(i, v, d) {
            let e: nat = (d - 1) as nat;
            if p.len() > 0 && p[0] {
                self.ahead(i, self.s.union_b(v), rest(p), e, c)
            } else {
                self.ahead(i, self.s.union_a(v), rest(p), e, c) || self.ahead(
                    i,
                    self.s.union_b(v),
                    Seq::empty(),
                    e,
                    c,
                )
            }
        } else {
            c.len() > 0 && c[0] == v && if 0 <= i && i + 1 < self.xs.len() {
                self.ahead(i + 1, self.xs[i + 1], p, self.k, c.drop_first())
            } else {
                c.len() == 1
            }
        }
    }

    /// The number of combinations from the one that `p` leads to.
    pub open spec fn count(self, i: int, v: u32, p: Seq<bool>, d: nat) -> nat
        decreases self.xs.len() - i, d,
    {
        if self.splits(i, v, d) {
            let e: nat = (d - 1) as nat;
            if p.len() > 0 && p[0] {
                self.count(i, self.s.union_b(v), rest(p), e)
            } else {
                self.count(i, self.s.union_a(v), rest(p), e) + self.count(
                    i,
                    self.s.union_b(v),
                    Seq::empty(),
                    e,
                )
            }
        } else if 0 <= i && i + 1 < self.xs.len() {
            self.count(i + 1, self.xs[i + 1], p, self.k)
        } else {
            1
        }
    }
}

/// Whether `c` and `g` have the same first `m` members.
pub open spec fn agree(c: Seq<u32>, g: Seq<u32>, m: int) -> bool {
    c.len() >= m && g.len() >= m && forall|e: int| 0 <= e < m ==> #[trigger] c[e] == g[e]
}

proof fn lemma_goals(w: Row, i: int, v: u32, p: Seq<bool>, d: nat)
    requires
        0 <= i < w.xs.len(),
    ensures
        w.goals(i, v, p, d).len() == w.xs.len() - i,
        w.ahead(i, v, p, d, w.goals(i, v, p, d)),
        w.count(i, v, p, d) > 0,
    decreases w.xs.len() - i, d,
{
    if w.splits(i, v, d) {
        let b = p.len() > 0 && p[0];
        lemma_goals(w, i, w.s.arm(v, b), rest(p), (d - 1) as nat);
    } else if i + 1 < w.xs.len() {
        lemma_goals(w, i + 1, w.xs[i + 1], p, w.k);
        let inner = w.goals(i + 1, w.xs[i + 1], p, w.k);
        assert((seq![v] + inner).drop_first() =~= inner);
    }
}

/// The decisions that are read up to a union, with those left over, lead where those
/// that were given do.
proof fn lemma_read(w: Row, i: int, v: u32, p: Seq<bool>, d: nat, j: int, n: int)
    requires
        w.ok(),
        0 <= i <= j < w.xs.len(),
        w.s.union_to(v, d),
        w.valid(i, v, p, d),
    ensures
        ({
            let f = w.path(i, v, p, d, j);
            let r = f + w.tail(i, v, p, d, j);
            &&& w.valid(i, v, r, d)
            &&& w.goals(i, v, r, d) == w.goals(i, v, p, d)
            &&& w.path(i, v, r, d, n) == w.path(i, v, p, d, n)
        }),
    decreases w.xs.len() - i, d,
{
    let f = w.path(i, v, p, d, j);
    let t = w.tail(i, v, p, d, j);
    let r = f + t;
    if w.splits(i, v, d) {
        let b = p.len() > 0 && p[0];
        let e: nat = (d - 1) as nat;
        let u = w.s.arm(v, b);
        let q = rest(p);
        if p.len() > 0 {
            assert(w.valid(i, u, q, e));
        } else {
            assert(q =~= p);
        }
        lemma_read(w, i, u, q, e, j, n);
        let f1 = w.path(i, u, q, e, j);
        let r1 = f1 + t;
        assert(r =~= seq![b] + r1);
        assert(r[0] == b);
        assert(r.drop_first() =~= r1);
        assert(rest(r) == r1);
    } else if i < j && i + 1 < w.xs.len() {
        lemma_read(w, i + 1, w.xs[i + 1], p, w.k, j, n);
        assert(r.len() == 0 ==> w.valid(i, v, r, d));
    } else {
        assert(r =~= p);
    }
}

/// The decisions that follow those read up to union number `j` lead to the next
/// combination that differs there or before.
#[verifier::rlimit(60)]
#[verifier::spinoff_prover]
proof fn lemma_skip(w: Row, i: int, v: u32, p: Seq<bool>, d: nat, j: int)
    requires
        w.ok(),
        0 <= i <= j < w.xs.len(),
        w.s.union_to(v, d),
        w.valid(i, v, p, d),
        p.len() <= w.path(i, v, p, d, j).len(),
    ensures
        ({
            let f = w.path(i, v, p, d, j);
            let g = w.goals(i, v, p, d);
            let q = following(f);
            &&& mark(f) == 0 ==> forall|c: Seq<u32>| #[trigger]
                w.ahead(i, v, p, d, c) ==> agree(c, g, j - i + 1)
            &&& mark(f) > 0 ==> {
                &&& w.valid(i, v, q, d)
                &&& q.len() <= w.path(i, v, q, d, j).len()
                &&& w.count(i, v, q, d) < w.count(i, v, p, d)
                &&& exists|m: int|
                    i <= m <= j && #[trigger] w.settles(i, v, q, d, m) && agree(
                        w.goals(i, v, q, d),
                        g,
                        m - i,
                    )
                &&& forall|c: Seq<u32>| #[trigger]
                    w.ahead(i, v, p, d, c) ==> agree(c, g, j - i + 1) || w.ahead(i, v, q, d, c)
                &&& forall|c: Seq<u32>| #[trigger]
                    w.ahead(i, v, q, d, c) ==> w.ahead(i, v, p, d, c)
            }
        }),
    decreases w.xs.len() - i, d,
{
    let f = w.path(i, v, p, d, j);
    let g = w.goals(i, v, p, d);
    lemma_goals(w, i, v, p, d);
    if w.splits(i, v, d) {
        let b = p.len() > 0 && p[0];
        let e: nat = (d - 1) as nat;
        let u = w.s.arm(v, b);
        let r = rest(p);
        if p.len() > 0 {
            assert(w.valid(i, u, r, e));
        } else {
            assert(r =~= p);
        }
        let f1 = w.path(i, u, r, e, j);
        assert(f == seq![b] + f1);
        lemma_skip(w, i, u, r, e, j);
        crate::unions::lemma_mark_cons(b, f1);
        crate::unions::lemma_mark_bound(f1);
        lemma_goals(w, i, u, r, e);
        let none = Seq::<bool>::empty();
        let ub = w.s.union_b(v);
        lemma_goals(w, i, ub, none, e);
        assert forall|c: Seq<u32>| #[trigger] w.ahead(i, v, p, d, c) == (w.ahead(i, u, r, e, c) || (
        !b && w.ahead(i, ub, none, e, c))) by {
            let x = w.ahead(i, u, r, e, c);
            let y = w.ahead(i, ub, none, e, c);
        }
        if mark(f1) > 0 {
            let q1 = following(f1);
            let q = following(f);
            assert(q =~= seq![b] + q1);
            assert(q[0] == b);
            assert(rest(q) =~= q1);
            assert(q.drop_first() =~= q1);
            assert(w.path(i, v, q, d, j) == seq![b] + w.path(i, u, q1, e, j));
            assert forall|c: Seq<u32>| #[trigger] w.ahead(i, v, q, d, c) == (w.ahead(i, u, q1, e, c)
                || (!b && w.ahead(i, ub, none, e, c))) by {
                let x = w.ahead(i, u, q1, e, c);
                let y = w.ahead(i, ub, none, e, c);
            }
            assert(w.count(i, v, q, d) < w.count(i, v, p, d)) by {
                let x = w.count(i, u, q1, e);
                let y = w.count(i, u, r, e);
            }
            assert(w.valid(i, v, q, d));
            let m = choose|m: int|
                i <= m <= j && #[trigger] w.settles(i, u, q1, e, m) && agree(
                    w.goals(i, u, q1, e),
                    w.goals(i, u, r, e),
                    m - i,
                );
            assert(w.path(i, v, q, d, m) == seq![b] + w.path(i, u, q1, e, m));
            assert(w.settles(i, v, q, d, m));
            assert(w.goals(i, v, q, d) == w.goals(i, u, q1, e));
        } else if !b {
            let q = following(f);
            assert(q =~= seq![true]);
            assert(rest(q) =~= none);
            assert(q.drop_first() =~= none);
            assert(w.valid(i, ub, none, e));
            assert(w.path(i, v, q, d, j) == seq![true] + w.path(i, ub, none, e, j));
            assert forall|c: Seq<u32>| #[trigger] w.ahead(i, v, q, d, c) == w.ahead(
                i,
                ub,
                none,
                e,
                c,
            ) by {
                let y = w.ahead(i, ub, none, e, c);
            }
            assert(w.count(i, v, q, d) < w.count(i, v, p, d)) by {
                let x = w.count(i, ub, none, e);
                let y = w.count(i, u, r, e);
            }
            assert(w.valid(i, v, q, d));
            assert(w.path(i, v, q, d, i) == seq![true] + w.path(i, ub, none, e, i));
            assert(w.settles(i, v, q, d, i));
        }
    } else if i < j && i + 1 < w.xs.len() {
        lemma_skip(w, i + 1, w.xs[i + 1], p, w.k, j);
        let inner = w.goals(i + 1, w.xs[i + 1], p, w.k);
        let q = following(f);
        assert(g == seq![v] + inner);
        assert forall|c: Seq<u32>|
            c.len() > 0 && c[0] == v && agree(c.drop_first(), inner, j - i) implies #[trigger] agree(
            c,
            g,
            j - i + 1,
        ) by {
            assert forall|e: int| 0 <= e < j - i + 1 implies #[trigger] c[e] == g[e] by {
                if e > 0 {
                    assert(c.drop_first()[e - 1] == inner[e - 1]);
                }
            }
        }
        assert forall|c: Seq<u32>| #[trigger]
            w.ahead(i, v, p, d, c) && mark(f) == 0 implies agree(c, g, j - i + 1) by {
            assert(w.ahead(i + 1, w.xs[i + 1], p, w.k, c.drop_first()));
        }
        if mark(f) > 0 {
            let m = choose|m: int|
                i + 1 <= m <= j && #[trigger] w.settles(i + 1, w.xs[i + 1], q, w.k, m) && agree(
                    w.goals(i + 1, w.xs[i + 1], q, w.k),
                    inner,
                    m - i - 1,
                );
            assert(w.settles(i, v, q, d, m));
            let after = w.goals(i + 1, w.xs[i + 1], q, w.k);
            assert(w.goals(i, v, q, d) == seq![v] + after);
            assert(agree(seq![v] + after, g, m - i)) by {
                assert forall|e: int| 0 <= e < m - i implies #[trigger] (seq![v] + after)[e]
                    == g[e] by {
                    if e > 0 {
                        assert(after[e - 1] == inner[e - 1]);
                    }
                }
            }
            assert forall|c: Seq<u32>| #[trigger] w.ahead(i, v, p, d, c) implies agree(
                c,
                g,
                j - i + 1,
            ) || w.ahead(i, v, q, d, c) by {
                assert(w.ahead(i + 1, w.xs[i + 1], p, w.k, c.drop_first()));
            }
            assert forall|c: Seq<u32>| #[trigger] w.ahead(i, v, q, d, c) implies w.ahead(
                i,
                v,
                p,
                d,
                c,
            ) by {
                assert(w.ahead(i + 1, w.xs[i + 1], q, w.k, c.drop_first()));
            }
        }
    } else {
        assert(p =~= Seq::<bool>::empty());
        assert(g[0] == v);
    }
}

/// One union, then those after it.
proof fn lemma_step_row(w: Row, i: int, v: u32, p: Seq<bool>, d: nat, j: int)
    requires
        0 <= i <= j < w.xs.len(),
    ensures
        ({
            let t = w.tail(i, v, p, d, i);
            &&& w.path(i, v, p, d, j) == w.path(i, v, p, d, i) + if i < j {
                w.path(i + 1, w.xs[i + 1], t, w.k, j)
            } else {
                Seq::empty()
            }
            &&& i < j ==> w.tail(i, v, p, d, j) == w.tail(i + 1, w.xs[i + 1], t, w.k, j)
            &&& i + 1 < w.xs.len() ==> w.goals(i, v, p, d) == seq![w.goals(i, v, p, d)[0]]
                + w.goals(i + 1, w.xs[i + 1], t, w.k)
            &&& i + 1 < w.xs.len() && w.valid(i, v, p, d) ==> w.valid(
                i + 1,
                w.xs[i + 1],
                t,
                w.k,
            )
            &&& i + 1 == w.xs.len() && w.valid(i, v, p, d) ==> t.len() == 0
        }),
    decreases d,
{
    if w.splits(i, v, d) {
        let b = p.len() > 0 && p[0];
        let e: nat = (d - 1) as nat;
        let u = w.s.arm(v, b);
        let r = rest(p);
        if p.len() == 0 {
            assert(r =~= p);
        }
        lemma_step_row(w, i, u, r, e, j);
        assert(w.valid(i, v, p, d) ==> w.valid(i, u, r, e));
        assert(w.path(i, v, p, d, j) == seq![b] + w.path(i, u, r, e, j));
        assert(w.path(i, v, p, d, i) == seq![b] + w.path(i, u, r, e, i));
        assert(w.path(i, v, p, d, j) =~= w.path(i, v, p, d, i) + if i < j {
            w.path(i + 1, w.xs[i + 1], w.tail(i, v, p, d, i), w.k, j)
        } else {
            Seq::empty()
        });
    } else {
        let t = w.tail(i, v, p, d, i);
        assert(t == p);
        assert(w.path(i, v, p, d, i) =~= Seq::<bool>::empty());
        if i < j {
            assert(w.path(i, v, p, d, j) =~= w.path(i, v, p, d, i) + w.path(
                i + 1,
                w.xs[i + 1],
                t,
                w.k,
                j,
            ));
        } else {
            assert(w.path(i, v, p, d, j) =~= w.path(i, v, p, d, i) + Seq::<bool>::empty());
        }
        if i + 1 < w.xs.len() {
            let inner = w.goals(i + 1, w.xs[i + 1], t, w.k);
            assert(w.goals(i, v, p, d) == seq![v] + inner);
            assert((seq![v] + inner)[0] == v);
        }
    }
}

/// The path to a later union is no shorter.
proof fn lemma_longer(w: Row, i: int, v: u32, p: Seq<bool>, d: nat, j: int, n: int)
    requires
        0 <= i <= j <= n < w.xs.len(),
    ensures
        w.path(i, v, p, d, j).len() <= w.path(i, v, p, d, n).len(),
    decreases w.xs.len() - i, d,
{
    if w.splits(i, v, d) {
        let b = p.len() > 0 && p[0];
        lemma_longer(w, i, w.s.arm(v, b), rest(p), (d - 1) as nat, j, n);
    } else if i < j {
        lemma_longer(w, i + 1, w.xs[i + 1], p, w.k, j, n);
    }
}

/// How long a path can be.
proof fn lemma_path_bound(w: Row, i: int, v: u32, p: Seq<bool>, d: nat, j: int)
    requires
        0 <= i <= j < w.xs.len(),
    ensures
        w.path(i, v, p, d, j).len() <= d + w.k * (j - i),
    decreases w.xs.len() - i, d,
{
    assert(w.k * (j - i) >= 0) by (nonlinear_arith)
        requires
            w.k >= 0,
            j - i >= 0,
    ;
    if w.splits(i, v, d) {
        let b = p.len() > 0 && p[0];
        lemma_path_bound(w, i, w.s.arm(v, b), rest(p), (d - 1) as nat, j);
    } else if i < j {
        lemma_path_bound(w, i + 1, w.xs[i + 1], p, w.k, j);
        assert(w.k + w.k * (j - i - 1) == w.k * (j - i)) by (nonlinear_arith);
    }
}

/// Valid decisions are all read by the end.
proof fn lemma_all_read(w: Row, i: int, v: u32, p: Seq<bool>, d: nat)
    requires
        0 <= i < w.xs.len(),
        w.valid(i, v, p, d),
    ensures
        w.tail(i, v, p, d, w.xs.len() - 1).len() == 0,
        w.settles(i, v, p, d, w.xs.len() - 1),
    decreases w.xs.len() - i, d,
{
    let n = w.xs.len() - 1;
    if w.splits(i, v, d) {
        let b = p.len() > 0 && p[0];
        let e: nat = (d - 1) as nat;
        if p.len() == 0 {
            assert(rest(p) =~= p);
        }
        assert(w.valid(i, w.s.arm(v, b), rest(p), e));
        lemma_all_read(w, i, w.s.arm(v, b), rest(p), e);
        assert(w.settles(i, w.s.arm(v, b), rest(p), e, n));
    } else if i < n {
        assert(w.valid(i + 1, w.xs[i + 1], p, w.k));
        lemma_all_read(w, i + 1, w.xs[i + 1], p, w.k);
        assert(w.settles(i + 1, w.xs[i + 1], p, w.k, n));
    }
}

/// What is read up to a union leaves nothing over, if the decisions are settled there.
proof fn lemma_settled(w: Row, i: int, v: u32, p: Seq<bool>, d: nat, j: int)
    requires
        0 <= i <= j < w.xs.len(),
        w.settles(i, v, p, d, j),
    ensures
        w.tail(i, v, p, d, j).len() == 0,
    decreases w.xs.len() - i, d,
{
    if w.splits(i, v, d) {
        let b = p.len() > 0 && p[0];
        let e: nat = (d - 1) as nat;
        assert(w.path(i, v, p, d, j) == seq![b] + w.path(i, w.s.arm(v, b), rest(p), e, j));
        assert(w.settles(i, w.s.arm(v, b), rest(p), e, j));
        lemma_settled(w, i, w.s.arm(v, b), rest(p), e, j);
    } else if i < j {
        assert(w.settles(i + 1, w.xs[i + 1], p, w.k, j));
        lemma_settled(w, i + 1, w.xs[i + 1], p, w.k, j);
    }
}

/// Whether a stack has read the decisions `g`, and holds `p` after them.
pub open spec fn reading(st: UnionV, g: Seq<bool>, p: Seq<bool>) -> bool {
    st.depth == g.len() && st.more == mark(g) && holds(st, g + p)
}

/// The decisions read on the way to a member of one of the unions.
proof fn lemma_descend(
    q: Q,
    w: Row,
    r: bool,
    i: int,
    v: u32,
    g: Seq<bool>,
    p: Seq<bool>,
    d: nat,
    fuel: nat,
)
    requires
        w.s == q.s,
        0 <= i < w.xs.len(),
        w.splits(i, v, d),
        q.s.union_to(v, d),
        reading(stack(q.e, r), g, p),
        g.len() + p.len() + d < usize::MAX,
        d <= fuel,
    ensures
        ({
            let (q1, a) = q.pick_element(v, r, fuel);
            &&& a == w.goals(i, v, p, d)[0]
            &&& q1.s == q.s
            &&& reading(
                stack(q1.e, r),
                g + w.path(i, v, p, d, i),
                w.tail(i, v, p, d, i),
            )
            &&& r ==> q1.e == (EnvV { r: q1.e.r, ..q.e })
            &&& !r ==> q1.e == (EnvV { l: q1.e.l, ..q.e })
        }),
    decreases d,
{
    let st = stack(q.e, r);
    lemma_pick_one(st, g, p);
    let (q1, b) = q.pick(r);
    let u = q.s.arm(v, b);
    let e: nat = (d - 1) as nat;
    let g1 = g.push(b);
    let p1 = rest(p);
    assert(w.path(i, v, p, d, i) == seq![b] + w.path(i, u, p1, e, i));
    assert(g + w.path(i, v, p, d, i) =~= g1 + w.path(i, u, p1, e, i));
    assert(q.s.union_to(u, e));
    if q.s.is_union(u) {
        lemma_descend(q1, w, r, i, u, g1, p1, e, (fuel - 1) as nat);
        assert(w.goals(i, v, p, d) == w.goals(i, u, p1, e));
    } else {
        assert(w.path(i, u, p1, e, i) =~= Seq::<bool>::empty());
        assert(g1 + w.path(i, u, p1, e, i) =~= g1);
        assert(w.tail(i, u, p1, e, i) == p1);
        assert(w.goals(i, u, p1, e)[0] == u);
    }
}

/// The member of a union that is resolved is plain.
proof fn lemma_leaf_plain(w: Row, i: int, v: u32, p: Seq<bool>, d: nat)
    requires
        0 <= i < w.xs.len(),
        w.open[i],
        w.s.union_to(v, d),
    ensures
        w.s.plain(w.goals(i, v, p, d)[0]),
    decreases d,
{
    if w.splits(i, v, d) {
        let b = p.len() > 0 && p[0];
        lemma_leaf_plain(w, i, w.s.arm(v, b), rest(p), (d - 1) as nat);
    } else if i + 1 < w.xs.len() {
        let inner = w.goals(i + 1, w.xs[i + 1], p, w.k);
        assert((seq![v] + inner)[0] == v);
    }
}

/// Two rows that are compared: unions on the left are resolved unless the comparison
/// ends at once, those on the right unless the member on the left shows it.
pub open spec fn paired(l: Row, r: Row, a: Seq<u32>) -> bool {
    &&& l.ok() && r.ok()
    &&& l.s == r.s && l.k == r.k && l.xs.len() == r.xs.len() && a.len() == l.xs.len()
    &&& l.s.types_agree()
    &&& 8 * l.s.objs.len() <= REGION_SIZE
    &&& l.k <= MAX_NESTING
    &&& l.k * l.xs.len() <= 0x3fff_ffff
    &&& forall|e: int|
        #![trigger l.open[e]]
        0 <= e < l.xs.len() ==> l.open[e] == !quick(l.s, l.xs[e], r.xs[e])
    &&& forall|e: int|
        #![trigger r.open[e]]
        0 <= e < l.xs.len() ==> r.open[e] == (l.open[e] && !shown(l.s, a[e], r.xs[e]))
}

/// Whether an element passes with the members `a` and `b`.
pub open spec fn passes(s: State, x: u32, y: u32, a: u32, b: u32) -> bool {
    quick(s, x, y) || shown(s, a, y) || s.below(a, b, 2 * s.objs.len())
}

/// The comparison of one element.
#[verifier::rlimit(60)]
#[verifier::spinoff_prover]
proof fn lemma_element(
    q: Q,
    l: Row,
    r: Row,
    a: Seq<u32>,
    i: int,
    gl: Seq<bool>,
    pl: Seq<bool>,
    gr: Seq<bool>,
    pr: Seq<bool>,
    fuel: nat,
)
    requires
        fresh(q),
        q.s == l.s,
        paired(l, r, a),
        0 <= i < l.xs.len(),
        reading(q.e.l, gl, pl),
        reading(q.e.r, gr, pr),
        gl.len() + pl.len() + l.k < usize::MAX,
        gr.len() + pr.len() + l.k < usize::MAX,
        l.goals(i, l.xs[i], pl, l.k)[0] == a[i],
        8 * q.s.objs.len() + 4 <= fuel <= i32::MAX,
    ensures
        ({
            let (q1, ok) = q.sub(l.xs[i], r.xs[i], Param::Covariant, fuel);
            let b = r.goals(i, r.xs[i], pr, r.k)[0];
            &&& q1.s == q.s
            &&& fresh(q1)
            &&& ok == passes(q.s, l.xs[i], r.xs[i], a[i], b)
            &&& reading(
                q1.e.l,
                gl + l.path(i, l.xs[i], pl, l.k, i),
                l.tail(i, l.xs[i], pl, l.k, i),
            )
            &&& reading(
                q1.e.r,
                gr + r.path(i, r.xs[i], pr, r.k, i),
                r.tail(i, r.xs[i], pr, r.k, i),
            )
        }),
{
    reveal(Q::sub);
    reveal(Q::sub_right);
    reveal(Q::sub_vars);
    let s = q.s;
    let x = l.xs[i];
    let y = r.xs[i];
    let k = l.k;
    let f = MAX_NESTING as nat;
    let len = s.objs.len();
    let param = Param::Covariant;
    let none = Seq::<bool>::empty();
    assert(l.open[i] == !quick(s, x, y));
    assert(r.open[i] == (l.open[i] && !shown(s, a[i], y)));
    assert(s.union_to(x, k) && s.union_to(y, k));
    let pathl = l.path(i, x, pl, k, i);
    let pathr = r.path(i, y, pr, k, i);
    if !l.splits(i, x, k) {
        assert(pathl =~= none);
        assert(gl + pathl =~= gl);
        assert(l.goals(i, x, pl, k)[0] == x);
    }
    if !r.splits(i, y, k) {
        assert(pathr =~= none);
        assert(gr + pathr =~= gr);
        assert(r.goals(i, y, pr, k)[0] == y);
    }
    if quick(s, x, y) {
        assert(q.sub(x, y, param, fuel) == (q, true));
    } else {
        lemma_leaf_plain(l, i, x, pl, k);
        let q2 = if s.is_union(x) {
            q.pick_element(x, false, f).0
        } else {
            q
        };
        if s.is_union(x) {
            lemma_descend(q, l, false, i, x, gl, pl, k, f);
        }
        assert(q2.s == s && fresh(q2) && q2.e.r == q.e.r);
        let walk = q2.sub_right(a[i], y, param, fuel);
        assert(q.sub(x, y, param, fuel) == walk);
        if !s.is_union(y) {
            ground::lemma_vars(q2, a[i], len, y, len, param, 2 * len, fuel);
            let end = q2.sub_vars(a[i], y, param, fuel);
            assert(walk == end);
        } else if shown(s, a[i], y) {
            assert(walk == (q2, true));
        } else {
            lemma_leaf_plain(r, i, y, pr, k);
            lemma_descend(q2, r, true, i, y, gr, pr, k, f);
            let (q3, b) = q2.pick_element(y, true, f);
            ground::lemma_vars(q3, a[i], len, b, len, param, 2 * len, fuel);
            let end = q3.sub_vars(a[i], b, param, fuel);
            assert(walk == end);
        }
    }
}

/// The first element from `i` on that does not pass.
pub open spec fn first_fail(l: Row, r: Row, a: Seq<u32>, b: Seq<u32>, i: int) -> Option<int>
    decreases l.xs.len() - i,
{
    if i < 0 || i >= l.xs.len() {
        None
    } else if !passes(l.s, l.xs[i], r.xs[i], a[i], b[i]) {
        Some(i)
    } else {
        first_fail(l, r, a, b, i + 1)
    }
}

/// Where a walk stops.
pub open spec fn stop(l: Row, fail: Option<int>) -> int {
    match fail {
        Some(j) => j,
        None => l.xs.len() - 1,
    }
}

proof fn lemma_fail_place(l: Row, r: Row, a: Seq<u32>, b: Seq<u32>, i: int)
    requires
        0 <= i < l.xs.len(),
    ensures
        i <= stop(l, first_fail(l, r, a, b, i)) < l.xs.len(),
    decreases l.xs.len() - i,
{
    if passes(l.s, l.xs[i], r.xs[i], a[i], b[i]) && i + 1 < l.xs.len() {
        lemma_fail_place(l, r, a, b, i + 1);
    } else {
        assert(i + 1 == l.xs.len() ==> first_fail(l, r, a, b, i + 1) is None);
    }
}

/// Reading a union adds no more decisions than it nests deep.
proof fn lemma_growth(w: Row, i: int, v: u32, p: Seq<bool>, d: nat)
    requires
        0 <= i < w.xs.len(),
    ensures
        w.path(i, v, p, d, i).len() + w.tail(i, v, p, d, i).len() <= p.len() + d,
    decreases d,
{
    if w.splits(i, v, d) {
        let b = p.len() > 0 && p[0];
        lemma_growth(w, i, w.s.arm(v, b), rest(p), (d - 1) as nat);
    }
}

/// Whether the members from union `i` on, from the decisions `p`, are those of `a`.
pub open spec fn from_here(w: Row, i: int, p: Seq<bool>, a: Seq<u32>) -> bool {
    forall|e: int|
        i <= e < w.xs.len() ==> w.goals(i, w.xs[i], p, w.k)[e - i] == #[trigger] a[e]
}

proof fn lemma_from_next(w: Row, i: int, p: Seq<bool>, a: Seq<u32>)
    requires
        0 <= i,
        i + 1 < w.xs.len(),
        from_here(w, i, p, a),
    ensures
        from_here(w, i + 1, w.tail(i, w.xs[i], p, w.k, i), a),
{
    let t = w.tail(i, w.xs[i], p, w.k, i);
    lemma_step_row(w, i, w.xs[i], p, w.k, i);
    let g = w.goals(i, w.xs[i], p, w.k);
    let h = w.goals(i + 1, w.xs[i + 1], t, w.k);
    assert(g == seq![g[0]] + h);
    lemma_goals(w, i + 1, w.xs[i + 1], t, w.k);
    assert forall|e: int| i + 1 <= e < w.xs.len() implies h[e - i - 1] == #[trigger] a[e] by {
        assert((seq![g[0]] + h)[e - i] == h[e - i - 1]);
    }
}

/// The walk of the elements from `i` on stops at the first that does not pass.
#[verifier::rlimit(80)]
#[verifier::spinoff_prover]
proof fn lemma_walk(
    q: Q,
    l: Row,
    r: Row,
    a: Seq<u32>,
    b: Seq<u32>,
    px: u32,
    py: u32,
    i: int,
    gl: Seq<bool>,
    pl: Seq<bool>,
    gr: Seq<bool>,
    pr: Seq<bool>,
    xi: u32,
    yi: u32,
    fuel: nat,
)
    requires
        fresh(q),
        q.s == l.s,
        paired(l, r, a),
        0 <= i < l.xs.len(),
        forall|e: int| 0 <= e < l.xs.len() ==> #[trigger] q.s.svec_ref(px, e) == l.xs[e],
        forall|e: int| 0 <= e < l.xs.len() ==> #[trigger] q.s.svec_ref(py, e) == r.xs[e],
        reading(q.e.l, gl, pl),
        reading(q.e.r, gr, pr),
        from_here(l, i, pl, a),
        from_here(r, i, pr, b),
        gl.len() + pl.len() + l.k * (l.xs.len() - i) <= 0x7fff_ffff,
        gr.len() + pr.len() + l.k * (l.xs.len() - i) <= 0x7fff_ffff,
        8 * q.s.objs.len() + 5 <= fuel <= i32::MAX,
    ensures
        ({
            let n = l.xs.len() as int;
            let (q1, ok) = q.sub_tail(
                px,
                py,
                n,
                n,
                i,
                i,
                0,
                0,
                xi,
                yi,
                Param::Covariant,
                fuel,
            );
            let fail = first_fail(l, r, a, b, i);
            let j = stop(l, fail);
            &&& q1.s == q.s
            &&& fresh(q1)
            &&& ok == (fail is None)
            &&& reading(
                q1.e.l,
                gl + l.path(i, l.xs[i], pl, l.k, j),
                l.tail(i, l.xs[i], pl, l.k, j),
            )
            &&& reading(
                q1.e.r,
                gr + r.path(i, r.xs[i], pr, r.k, j),
                r.tail(i, r.xs[i], pr, r.k, j),
            )
        }),
    decreases l.xs.len() - i,
{
    reveal(Q::sub_tail);
    reveal(Q::sub_tail_end);
    reveal(Q::sub);
    let n = l.xs.len() as int;
    let k = l.k;
    let f: nat = (fuel - 1) as nat;
    let x = l.xs[i];
    let y = r.xs[i];
    let param = Param::Covariant;
    assert(k * (n - i) == k + k * (n - i - 1)) by (nonlinear_arith);
    assert(k * (n - i - 1) >= 0) by (nonlinear_arith)
        requires
            k >= 0,
            n - i - 1 >= 0,
    ;
    assert(l.goals(i, x, pl, k)[i - i] == a[i]);
    assert(r.goals(i, y, pr, k)[i - i] == b[i]);
    lemma_element(q, l, r, a, i, gl, pl, gr, pr, f);
    let (q1, ok) = q.sub(x, y, param, f);
    assert(q.s.svec_ref(px, i) == x && q.s.svec_ref(py, i) == y);
    assert(q.s.union_to(x, k) && q.s.union_to(y, k));
    assert(!q.s.is_vararg(x) && !q.s.is_vararg(y));
    let walk = q.sub_tail(px, py, n, n, i, i, 0, 0, xi, yi, param, fuel);
    if ok {
        let next = q1.sub_tail(px, py, n, n, i + 1, i + 1, 0, 0, x, y, param, fuel);
        assert(walk == next);
        if i + 1 < n {
            let g1 = gl + l.path(i, x, pl, k, i);
            let p1 = l.tail(i, x, pl, k, i);
            let g2 = gr + r.path(i, y, pr, k, i);
            let p2 = r.tail(i, y, pr, k, i);
            lemma_growth(l, i, x, pl, k);
            lemma_growth(r, i, y, pr, k);
            lemma_from_next(l, i, pl, a);
            lemma_from_next(r, i, pr, b);
            lemma_walk(q1, l, r, a, b, px, py, i + 1, g1, p1, g2, p2, x, y, fuel);
            lemma_fail_place(l, r, a, b, i + 1);
            let j = stop(l, first_fail(l, r, a, b, i + 1));
            lemma_step_row(l, i, x, pl, k, j);
            lemma_step_row(r, i, y, pr, k, j);
            assert(g1 + l.path(i + 1, l.xs[i + 1], p1, k, j) =~= gl + l.path(i, x, pl, k, j));
            assert(g2 + r.path(i + 1, r.xs[i + 1], p2, k, j) =~= gr + r.path(i, y, pr, k, j));
        } else {
            assert(first_fail(l, r, a, b, i + 1) is None);
            let end = q1.sub_tail_end(n, n, 0, 0, y, f);
            assert(end == (q1, true));
            assert(next == end);
        }
    } else {
        assert(walk == (q1, false));
    }
}

/// Whether `x` and `y` are different tuple types with the rows' unions as elements.
pub open spec fn tuples_of(l: Row, r: Row, x: u32, y: u32) -> bool {
    let s = l.s;
    &&& s.is_datatype(x) && s.is_datatype(y)
    &&& s.is_tuple(x) && s.is_tuple(y)
    &&& !s.is_type_type(x) && !s.is_type_type(y)
    &&& x != y
    &&& y != s.builtin(id::ANY)
    &&& x != s.builtin(id::BOTTOM)
    &&& s.svec_seq(s.parameters(x)) == l.xs
    &&& s.svec_seq(s.parameters(y)) == r.xs
    &&& l.xs.len() == r.xs.len()
    &&& l.xs.len() > 0
    &&& forall|e: int|
        #![trigger l.xs[e]]
        0 <= e < l.xs.len() ==> !s.is_vararg(l.xs[e]) && !s.is_vararg(r.xs[e])
}

/// The walk of two tuple types is that of their elements.
proof fn lemma_enter(q: Q, l: Row, r: Row, x: u32, y: u32, fuel: nat)
    requires
        q.s == l.s,
        q.s.types_agree(),
        q.e.loffset == 0,
        tuples_of(l, r, x, y),
        fuel >= 4,
    ensures
        ({
            let n = l.xs.len() as int;
            q.sub(x, y, Param::Top, fuel) == q.sub_tail(
                q.s.parameters(x),
                q.s.parameters(y),
                n,
                n,
                0,
                0,
                0,
                0,
                NULL,
                NULL,
                Param::Covariant,
                (fuel - 3) as nat,
            )
        }),
{
    reveal(Q::sub);
    reveal(Q::sub_right);
    reveal(Q::sub_vars);
    reveal(Q::sub_ground);
    reveal(Q::sub_datatype);
    reveal(Q::sub_tuple);
    reveal(Q::sub_tail);
    let s = q.s;
    let n = l.xs.len() as int;
    let px = s.parameters(x);
    let py = s.parameters(y);
    let f1: nat = (fuel - 1) as nat;
    let f2: nat = (fuel - 2) as nat;
    let f3: nat = (fuel - 3) as nat;
    let cov = Param::Covariant;
    assert(s.super_named(x, s.name_of(y), MAX_NESTING as nat) == Some(x));
    assert(s.svec_seq(px)[n - 1] == l.xs[n - 1] && s.svec_seq(py)[n - 1] == r.xs[n - 1]);
    let walk = q.sub_tail(px, py, n, n, 0, 0, 0, 0, NULL, NULL, cov, f3);
    assert(q.sub_tail_start(px, py, n, n, cov, f3) == walk);
    assert(q.sub_tuple(x, y, cov, f2) == walk);
    assert(q.sub_datatype(x, y, Param::Top, f1) == walk);
    assert(q.sub_ground(x, y, Param::Top, fuel) == walk);
    assert(q.sub_vars(x, y, Param::Top, fuel) == walk);
    assert(q.sub_right(x, y, Param::Top, fuel) == walk);
}

/// What the first failing element says of the others.
proof fn lemma_fail(l: Row, r: Row, a: Seq<u32>, b: Seq<u32>, i: int)
    requires
        0 <= i <= l.xs.len(),
    ensures
        match first_fail(l, r, a, b, i) {
            Some(j) => {
                &&& i <= j < l.xs.len()
                &&& !passes(l.s, l.xs[j], r.xs[j], a[j], b[j])
                &&& forall|e: int|
                    i <= e < j ==> passes(l.s, l.xs[e], r.xs[e], a[e], #[trigger] b[e])
            },
            None => forall|e: int|
                i <= e < l.xs.len() ==> passes(l.s, l.xs[e], r.xs[e], a[e], #[trigger] b[e]),
        },
    decreases l.xs.len() - i,
{
    if i < l.xs.len() {
        lemma_fail(l, r, a, b, i + 1);
    }
}

/// The search on the right at given members on the left.
#[verifier::rlimit(100)]
#[verifier::spinoff_prover]
proof fn lemma_search(
    q: Q,
    l: Row,
    r: Row,
    a: Seq<u32>,
    x: u32,
    y: u32,
    full: Seq<bool>,
    pl: Seq<bool>,
    pr: Seq<bool>,
    m: int,
    se: SavedV,
    fuel: nat,
    cnt: nat,
)
    requires
        fresh(q),
        q.s == l.s,
        paired(l, r, a),
        tuples_of(l, r, x, y),
        holds(q.e.l, pl),
        holds(q.e.r, pr),
        l.valid(0, l.xs[0], pl, l.k),
        l.goals(0, l.xs[0], pl, l.k) == a,
        l.path(0, l.xs[0], pl, l.k, l.xs.len() - 1) == full,
        r.valid(0, r.xs[0], pr, r.k),
        0 <= m < l.xs.len(),
        r.settles(0, r.xs[0], pr, r.k, m),
        forall|e: int|
            0 <= e < m ==> passes(
                q.s,
                l.xs[e],
                r.xs[e],
                a[e],
                #[trigger] r.goals(0, r.xs[0], pr, r.k)[e],
            ),
        se.vars.len() == 0,
        cnt >= r.count(0, r.xs[0], pr, r.k),
        8 * q.s.objs.len() + 9 <= fuel <= i32::MAX,
    ensures
        ({
            let (q1, ok) = q.exists_loop(x, y, Param::Top, se, fuel, cnt);
            &&& q1.s == q.s
            &&& ok == exists|c: Seq<u32>|
                r.ahead(0, r.xs[0], pr, r.k, c) && #[trigger] first_fail(l, r, a, c, 0) is None
            &&& ok ==> fresh(q1) && walked(q1.e.l, full)
        }),
    decreases cnt,
{
    reveal(Q::exists_loop);
    reveal(Q::sub);
    let n = l.xs.len() as int;
    let k = l.k;
    let x0 = l.xs[0];
    let y0 = r.xs[0];
    let f: nat = (fuel - 1) as nat;
    let none = Seq::<bool>::empty();
    let q0 = q.with_env(EnvV { l: q.e.l.rewound(), r: q.e.r.rewound(), ..q.e });
    let px = q.s.parameters(x);
    let py = q.s.parameters(y);
    let b = r.goals(0, y0, pr, k);
    assert(none + pl =~= pl);
    assert(none + pr =~= pr);
    lemma_goals(r, 0, y0, pr, k);
    lemma_all_read(l, 0, x0, pl, k);
    lemma_all_read(r, 0, y0, pr, k);
    lemma_path_bound(l, 0, x0, pl, k, n - 1);
    lemma_path_bound(r, 0, y0, pr, k, n - 1);
    assert(k + k * (n - 1 - 0) == k * n) by (nonlinear_arith);
    assert forall|e: int| 0 <= e < n implies #[trigger] q.s.svec_ref(px, e) == l.xs[e] by {
        assert(q.s.svec_seq(px)[e] == l.xs[e]);
    }
    assert forall|e: int| 0 <= e < n implies #[trigger] q.s.svec_ref(py, e) == r.xs[e] by {
        assert(q.s.svec_seq(py)[e] == r.xs[e]);
    }
    lemma_enter(q0, l, r, x, y, f);
    lemma_walk(q0, l, r, a, b, px, py, 0, none, pl, none, pr, NULL, NULL, (f - 3) as nat);
    let (q1, ok) = q0.sub(x, y, Param::Top, f);
    let fail = first_fail(l, r, a, b, 0);
    lemma_fail(l, r, a, b, 0);
    let loops = q.exists_loop(x, y, Param::Top, se, fuel, cnt);
    if ok {
        let t = l.tail(0, x0, pl, k, n - 1);
        assert(none + full =~= full);
        assert(full + t =~= full);
        assert(loops == (q1, true));
        assert(r.ahead(0, y0, pr, k, b) && first_fail(l, r, a, b, 0) is None);
    } else {
        let j = fail->Some_0;
        assert(j >= m) by {
            if j < m {
                assert(passes(q.s, l.xs[j], r.xs[j], a[j], b[j]));
            }
        }
        let p = r.path(0, y0, pr, k, j);
        lemma_longer(r, 0, y0, pr, k, m, j);
        assert(r.settles(0, y0, pr, k, j));
        lemma_settled(r, 0, y0, pr, k, j);
        let t = r.tail(0, y0, pr, k, j);
        assert(none + p =~= p);
        assert(p + t =~= p);
        assert(walked(q1.e.r, p));
        lemma_skip(r, 0, y0, pr, k, j);
        lemma_retry(q1, se);
        let (q2, more) = q1.next(true);
        let q3 = q2.restore(se);
        assert forall|c: Seq<u32>| agree(c, b, j + 1) implies #[trigger] first_fail(
            l,
            r,
            a,
            c,
            0,
        ) is Some by {
            lemma_fail(l, r, a, c, 0);
            assert(c[j] == b[j]);
        }
        if mark(p) > 0 {
            lemma_step(q1.e.r, p);
            let pr1 = following(p);
            let f1 = l.path(0, x0, pl, k, j);
            let t1 = l.tail(0, x0, pl, k, j);
            let pl1 = f1 + t1;
            lemma_read(l, 0, x0, pl, k, j, n - 1);
            assert(none + f1 =~= f1);
            assert(holds(q1.e.l, pl1));
            let m1 = choose|m1: int|
                0 <= m1 <= j && #[trigger] r.settles(0, y0, pr1, k, m1) && agree(
                    r.goals(0, y0, pr1, k),
                    b,
                    m1 - 0,
                );
            assert forall|e: int| 0 <= e < m1 implies passes(
                q.s,
                l.xs[e],
                r.xs[e],
                a[e],
                #[trigger] r.goals(0, y0, pr1, k)[e],
            ) by {
                assert(r.goals(0, y0, pr1, k)[e] == b[e]);
            }
            lemma_search(q3, l, r, a, x, y, full, pl1, pr1, m1, se, fuel, (cnt - 1) as nat);
            let next = q3.exists_loop(x, y, Param::Top, se, fuel, (cnt - 1) as nat);
            assert(loops == next);
            if exists|c: Seq<u32>|
                r.ahead(0, y0, pr, k, c) && #[trigger] first_fail(l, r, a, c, 0) is None {
                let c = choose|c: Seq<u32>|
                    r.ahead(0, y0, pr, k, c) && #[trigger] first_fail(l, r, a, c, 0) is None;
                assert(r.ahead(0, y0, pr1, k, c));
            }
            if exists|c: Seq<u32>|
                r.ahead(0, y0, pr1, k, c) && #[trigger] first_fail(l, r, a, c, 0) is None {
                let c = choose|c: Seq<u32>|
                    r.ahead(0, y0, pr1, k, c) && #[trigger] first_fail(l, r, a, c, 0) is None;
                assert(r.ahead(0, y0, pr, k, c));
            }
        } else {
            assert(loops == (q3, false));
        }
    }
}

// --- all combinations -------------------------------------------------------

/// The row on the left of a comparison.
pub open spec fn left_row(s: State, xs: Seq<u32>, ys: Seq<u32>, k: nat) -> Row {
    Row { s, xs, open: Seq::new(xs.len(), |e: int| !quick(s, xs[e], ys[e])), k }
}

/// The row on the right of a comparison, at the members `a` on the left.
pub open spec fn right_row(s: State, xs: Seq<u32>, ys: Seq<u32>, k: nat, a: Seq<u32>) -> Row {
    Row {
        s,
        xs: ys,
        open: Seq::new(ys.len(), |e: int| !quick(s, xs[e], ys[e]) && !shown(s, a[e], ys[e])),
        k,
    }
}

/// Whether some members on the right go with the members `a` on the left.
pub open spec fn matched(s: State, xs: Seq<u32>, ys: Seq<u32>, k: nat, a: Seq<u32>) -> bool {
    let l = left_row(s, xs, ys, k);
    let r = right_row(s, xs, ys, k, a);
    exists|c: Seq<u32>|
        r.ahead(0, ys[0], Seq::empty(), k, c) && #[trigger] first_fail(l, r, a, c, 0) is None
}

/// The number of combinations of the members of the unions from `i` on.
pub open spec fn spread(s: State, xs: Seq<u32>, k: nat, i: int) -> nat
    decreases xs.len() - i,
{
    if i < 0 || i >= xs.len() {
        1
    } else {
        s.flatten(xs[i], k).len() * spread(s, xs, k, i + 1)
    }
}

/// What the enumeration of two tuples needs.
pub open spec fn ready(s: State, xs: Seq<u32>, ys: Seq<u32>, k: nat) -> bool {
    &&& xs.len() == ys.len()
    &&& xs.len() > 0
    &&& s.types_agree()
    &&& 8 * s.objs.len() <= REGION_SIZE
    &&& k <= MAX_NESTING
    &&& k * xs.len() <= 0x3fff_ffff
    &&& forall|e: int| 0 <= e < xs.len() ==> s.union_to(#[trigger] xs[e], k)
    &&& forall|e: int| 0 <= e < ys.len() ==> s.union_to(#[trigger] ys[e], k)
}

proof fn lemma_count(w: Row, i: int, v: u32, d: nat)
    requires
        0 <= i < w.xs.len(),
    ensures
        w.count(i, v, Seq::empty(), d) <= w.s.flatten(v, d).len() * spread(
            w.s,
            w.xs,
            w.k,
            i + 1,
        ),
    decreases w.xs.len() - i, d,
{
    let none = Seq::<bool>::empty();
    let t = spread(w.s, w.xs, w.k, i + 1);
    if w.splits(i, v, d) {
        let e: nat = (d - 1) as nat;
        let a = w.s.union_a(v);
        let b = w.s.union_b(v);
        lemma_count(w, i, a, e);
        lemma_count(w, i, b, e);
        let m = w.s.flatten(a, e).len();
        let n = w.s.flatten(b, e).len();
        assert((m + n) * t == m * t + n * t) by (nonlinear_arith);
        assert(rest(none) == none);
        assert(w.count(i, v, none, d) == w.count(i, a, none, e) + w.count(i, b, none, e));
    } else {
        lemma_some_member(w.s, v, d);
        let n = w.s.flatten(v, d).len();
        assert(t <= n * t) by (nonlinear_arith)
            requires
                n >= 1,
                t >= 0,
        ;
        if i + 1 < w.xs.len() {
            lemma_count(w, i + 1, w.xs[i + 1], w.k);
        }
    }
}

/// Whether `u` is a member of the part `v` of union number `i`.
pub open spec fn member(w: Row, i: int, v: u32, d: nat, u: u32) -> bool {
    if w.open[i] {
        w.s.flatten(v, d).contains(u)
    } else {
        u == v
    }
}

/// The combinations are those of members, one of each union.
proof fn lemma_ahead(w: Row, i: int, v: u32, d: nat, c: Seq<u32>)
    requires
        0 <= i < w.xs.len(),
    ensures
        w.ahead(i, v, Seq::empty(), d, c) <==> {
            &&& c.len() == w.xs.len() - i
            &&& member(w, i, v, d, c[0])
            &&& forall|e: int|
                1 <= e < c.len() ==> member(w, i + e, w.xs[i + e], w.k, #[trigger] c[e])
        },
    decreases w.xs.len() - i, d,
{
    let none = Seq::<bool>::empty();
    assert(rest(none) == none);
    if w.splits(i, v, d) {
        let e: nat = (d - 1) as nat;
        let a = w.s.union_a(v);
        let b = w.s.union_b(v);
        lemma_ahead(w, i, a, e, c);
        lemma_ahead(w, i, b, e, c);
        assert(w.ahead(i, v, none, d, c) == (w.ahead(i, a, none, e, c) || w.ahead(
            i,
            b,
            none,
            e,
            c,
        )));
        let xs = w.s.flatten(a, e);
        let ys = w.s.flatten(b, e);
        if c.len() > 0 {
            lemma_either(xs, ys, c[0]);
        }
    } else {
        assert(w.open[i] ==> w.s.flatten(v, d) =~= seq![v]);
        assert(seq![v].contains(v)) by {
            assert(seq![v][0] == v);
        }
        if i + 1 < w.xs.len() && c.len() > 0 {
            let t = c.drop_first();
            lemma_ahead(w, i + 1, w.xs[i + 1], w.k, t);
            if w.ahead(i, v, none, d, c) {
                assert(w.ahead(i + 1, w.xs[i + 1], none, w.k, t));
                assert forall|e: int| 1 <= e < c.len() implies member(
                    w,
                    i + e,
                    w.xs[i + e],
                    w.k,
                    #[trigger] c[e],
                ) by {
                    assert(t[e - 1] == c[e]);
                }
            }
            if c.len() == w.xs.len() - i && forall|e: int|
                1 <= e < c.len() ==> member(w, i + e, w.xs[i + e], w.k, #[trigger] c[e]) {
                assert(t[0] == c[1]);
                assert forall|e: int| 1 <= e < t.len() implies member(
                    w,
                    i + 1 + e,
                    w.xs[i + 1 + e],
                    w.k,
                    #[trigger] t[e],
                ) by {
                    assert(t[e] == c[e + 1]);
                }
                assert(w.ahead(i + 1, w.xs[i + 1], none, w.k, t));
            }
        }
    }
}

proof fn lemma_either(xs: Seq<u32>, ys: Seq<u32>, u: u32)
    ensures
        (xs + ys).contains(u) == (xs.contains(u) || ys.contains(u)),
{
    let zs = xs + ys;
    if xs.contains(u) {
        let i = choose|i: int| 0 <= i < xs.len() && xs[i] == u;
        assert(zs[i] == u);
    }
    if ys.contains(u) {
        let i = choose|i: int| 0 <= i < ys.len() && ys[i] == u;
        assert(zs[xs.len() + i] == u);
    }
    if zs.contains(u) {
        let i = choose|i: int| 0 <= i < zs.len() && zs[i] == u;
        if i < xs.len() {
            assert(xs[i] == u);
        } else {
            assert(ys[i - xs.len()] == u);
        }
    }
}

proof fn lemma_ahead_len(w: Row, i: int, v: u32, p: Seq<bool>, d: nat, c: Seq<u32>)
    requires
        0 <= i < w.xs.len(),
        w.ahead(i, v, p, d, c),
    ensures
        c.len() == w.xs.len() - i,
    decreases w.xs.len() - i, d,
{
    let none = Seq::<bool>::empty();
    if w.splits(i, v, d) {
        let e: nat = (d - 1) as nat;
        if p.len() > 0 && p[0] {
            assert(w.ahead(i, w.s.union_b(v), rest(p), e, c));
            lemma_ahead_len(w, i, w.s.union_b(v), rest(p), e, c);
        } else if w.ahead(i, w.s.union_a(v), rest(p), e, c) {
            lemma_ahead_len(w, i, w.s.union_a(v), rest(p), e, c);
        } else {
            assert(w.ahead(i, w.s.union_b(v), none, e, c));
            lemma_ahead_len(w, i, w.s.union_b(v), none, e, c);
        }
    } else if i + 1 < w.xs.len() {
        assert(w.ahead(i + 1, w.xs[i + 1], p, w.k, c.drop_first()));
        lemma_ahead_len(w, i + 1, w.xs[i + 1], p, w.k, c.drop_first());
    }
}

/// The enumeration on the left.
#[verifier::rlimit(80)]
#[verifier::spinoff_prover]
proof fn lemma_enumerate(
    q: Q,
    xs: Seq<u32>,
    ys: Seq<u32>,
    k: nat,
    x: u32,
    y: u32,
    pl: Seq<bool>,
    se: SavedV,
    fuel: nat,
    cnt: nat,
)
    requires
        fresh(q),
        ready(q.s, xs, ys, k),
        tuples_of(left_row(q.s, xs, ys, k), right_row(q.s, xs, ys, k, xs), x, y),
        holds(q.e.l, pl),
        left_row(q.s, xs, ys, k).valid(0, xs[0], pl, k),
        cnt >= left_row(q.s, xs, ys, k).count(0, xs[0], pl, k),
        spread(q.s, ys, k, 0) <= MAX_PASSES,
        se.vars.len() == 0,
        8 * q.s.objs.len() + 9 <= fuel <= i32::MAX,
    ensures
        ({
            let (q1, ok) = q.forall_loop(x, y, Param::Top, se, fuel, cnt);
            let l = left_row(q.s, xs, ys, k);
            &&& q1.s == q.s
            &&& ok == forall|a: Seq<u32>| #[trigger]
                l.ahead(0, xs[0], pl, k, a) ==> matched(q.s, xs, ys, k, a)
        }),
    decreases cnt,
{
    reveal(Q::forall_loop);
    reveal(Q::exists_loop);
    let s = q.s;
    let n = xs.len() as int;
    let l = left_row(s, xs, ys, k);
    let a = l.goals(0, xs[0], pl, k);
    let r = right_row(s, xs, ys, k, a);
    let none = Seq::<bool>::empty();
    let full = l.path(0, xs[0], pl, k, n - 1);
    lemma_goals(l, 0, xs[0], pl, k);
    lemma_all_read(l, 0, xs[0], pl, k);
    assert(paired(l, r, a)) by {
        assert(l.ok() && r.ok());
    }
    assert(tuples_of(l, r, x, y));
    lemma_count(r, 0, ys[0], k);
    assert(spread(s, ys, k, 0) == s.flatten(ys[0], k).len() * spread(s, ys, k, 1));
    let q0 = q.with_env(EnvV { r: UnionV { used: 0, ..q.e.r }, ..q.e });
    assert(q0.e.r.bits.take(0) =~= none);
    assert(r.settles(0, ys[0], none, k, 0));
    lemma_search(q0, l, r, a, x, y, full, pl, none, 0, se, fuel, MAX_PASSES as nat);
    let (q1, ok) = q0.exists_loop(x, y, Param::Top, se, fuel, MAX_PASSES as nat);
    assert(ok == matched(s, xs, ys, k, a));
    let loops = q.forall_loop(x, y, Param::Top, se, fuel, cnt);
    if ok {
        let (q2, more) = q1.next(false);
        lemma_skip(l, 0, xs[0], pl, k, n - 1);
        assert forall|c: Seq<u32>| #[trigger]
            l.ahead(0, xs[0], pl, k, c) && agree(c, a, n) implies c == a by {
            lemma_ahead_len(l, 0, xs[0], pl, k, c);
            assert(c =~= a);
        }
        if mark(full) > 0 {
            lemma_step(q1.e.l, full);
            let (q3, se1) = q2.resave(se);
            assert(bounds(q2.e.vars) =~= Seq::<u32>::empty());
            assert(q3 =~= q2);
            let pl1 = following(full);
            lemma_enumerate(q3, xs, ys, k, x, y, pl1, se1, fuel, (cnt - 1) as nat);
            let next = q3.forall_loop(x, y, Param::Top, se1, fuel, (cnt - 1) as nat);
            assert(loops == next);
            if forall|c: Seq<u32>| #[trigger]
                l.ahead(0, xs[0], pl1, k, c) ==> matched(s, xs, ys, k, c) {
                assert forall|c: Seq<u32>| #[trigger]
                    l.ahead(0, xs[0], pl, k, c) implies matched(s, xs, ys, k, c) by {
                    if !agree(c, a, n) {
                        assert(l.ahead(0, xs[0], pl1, k, c));
                    }
                }
            }
            if forall|c: Seq<u32>| #[trigger]
                l.ahead(0, xs[0], pl, k, c) ==> matched(s, xs, ys, k, c) {
                assert forall|c: Seq<u32>| #[trigger]
                    l.ahead(0, xs[0], pl1, k, c) implies matched(s, xs, ys, k, c) by {
                    assert(l.ahead(0, xs[0], pl, k, c));
                }
            }
        } else {
            assert(loops == (q2, true));
        }
    } else {
        assert(loops == (q1, false));
        assert(l.ahead(0, xs[0], pl, k, a));
    }
}

/// Whether some member on the right goes with the member `u` of element `e`.
pub open spec fn goes(s: State, xs: Seq<u32>, ys: Seq<u32>, k: nat, e: int, u: u32) -> bool {
    quick(s, xs[e], ys[e]) || shown(s, u, ys[e]) || s.below_some(u, s.flatten(ys[e], k))
}

/// Members on the left are matched exactly if each is.
#[verifier::rlimit(40)]
#[verifier::spinoff_prover]
proof fn lemma_matched(s: State, xs: Seq<u32>, ys: Seq<u32>, k: nat, a: Seq<u32>)
    requires
        ready(s, xs, ys, k),
        a.len() == xs.len(),
    ensures
        matched(s, xs, ys, k, a) <==> forall|e: int|
            0 <= e < xs.len() ==> goes(s, xs, ys, k, e, #[trigger] a[e]),
{
    let n = xs.len() as int;
    let l = left_row(s, xs, ys, k);
    let r = right_row(s, xs, ys, k, a);
    let none = Seq::<bool>::empty();
    let m = 2 * s.objs.len();
    if matched(s, xs, ys, k, a) {
        let c = choose|c: Seq<u32>|
            r.ahead(0, ys[0], none, k, c) && #[trigger] first_fail(l, r, a, c, 0) is None;
        lemma_ahead(r, 0, ys[0], k, c);
        lemma_fail(l, r, a, c, 0);
        assert forall|e: int| 0 <= e < n implies goes(s, xs, ys, k, e, #[trigger] a[e]) by {
            assert(passes(s, xs[e], ys[e], a[e], c[e]));
            assert(member(r, e, ys[e], k, c[e]));
            if r.open[e] {
                let zs = s.flatten(ys[e], k);
                let j = choose|j: int| 0 <= j < zs.len() && zs[j] == c[e];
                assert(s.below(a[e], zs[j], m));
            }
        }
    }
    if forall|e: int| 0 <= e < n ==> goes(s, xs, ys, k, e, #[trigger] a[e]) {
        let c = Seq::new(
            xs.len(),
            |e: int|
                if r.open[e] {
                    let zs = s.flatten(ys[e], k);
                    zs[choose|j: int| 0 <= j < zs.len() && s.below(a[e], #[trigger] zs[j], m)]
                } else {
                    ys[e]
                },
        );
        assert forall|e: int| 0 <= e < n implies member(r, e, ys[e], k, #[trigger] c[e]) && passes(
            s,
            xs[e],
            ys[e],
            a[e],
            c[e],
        ) by {
            assert(goes(s, xs, ys, k, e, a[e]));
            let zs = s.flatten(ys[e], k);
            if r.open[e] {
                assert(s.below_some(a[e], zs));
                let j = choose|j: int| 0 <= j < zs.len() && s.below(a[e], #[trigger] zs[j], m);
                assert(zs[j] == c[e]);
            }
        }
        lemma_ahead(r, 0, ys[0], k, c);
        lemma_fail(l, r, a, c, 0);
        assert(r.ahead(0, ys[0], none, k, c) && first_fail(l, r, a, c, 0) is None);
    }
}

proof fn lemma_flat_plain(s: State, t: u32, d: nat, i: int)
    requires
        s.union_to(t, d),
        0 <= i < s.flatten(t, d).len(),
    ensures
        s.plain(s.flatten(t, d)[i]),
    decreases d,
{
    if s.is_union(t) {
        let e: nat = (d - 1) as nat;
        let n = s.flatten(s.union_a(t), e).len();
        if i < n {
            lemma_flat_plain(s, s.union_a(t), e, i);
        } else {
            lemma_flat_plain(s, s.union_b(t), e, i - n);
        }
    }
}

/// All combinations are matched exactly if the elements are, one by one.
#[verifier::rlimit(40)]
#[verifier::spinoff_prover]
proof fn lemma_elementwise(s: State, xs: Seq<u32>, ys: Seq<u32>, k: nat)
    requires
        ready(s, xs, ys, k),
    ensures
        ({
            let l = left_row(s, xs, ys, k);
            (forall|a: Seq<u32>| #[trigger]
                l.ahead(0, xs[0], Seq::empty(), k, a) ==> matched(s, xs, ys, k, a)) <==> forall|
                e: int,
            |
                0 <= e < xs.len() ==> s.all_below_some(
                    s.flatten(#[trigger] xs[e], k),
                    s.flatten(ys[e], k),
                )
        }),
{
    let n = xs.len() as int;
    let l = left_row(s, xs, ys, k);
    let none = Seq::<bool>::empty();
    let f = MAX_NESTING as nat;
    if forall|a: Seq<u32>| #[trigger]
        l.ahead(0, xs[0], none, k, a) ==> matched(s, xs, ys, k, a) {
        assert forall|e: int| 0 <= e < n implies s.all_below_some(
            s.flatten(#[trigger] xs[e], k),
            s.flatten(ys[e], k),
        ) by {
            let us = s.flatten(xs[e], k);
            let zs = s.flatten(ys[e], k);
            assert(s.union_to(xs[e], k) && s.union_to(ys[e], k));
            if quick(s, xs[e], ys[e]) {
                lemma_egal_members(s, xs[e], ys[e], k, f);
            } else {
                assert forall|i: int| 0 <= i < us.len() implies s.below_some(
                    #[trigger] us[i],
                    zs,
                ) by {
                    let a = Seq::new(
                        xs.len(),
                        |j: int|
                            if j == e {
                                us[i]
                            } else if l.open[j] {
                                s.flatten(xs[j], k)[0]
                            } else {
                                xs[j]
                            },
                    );
                    assert forall|j: int| 0 <= j < n implies member(
                        l,
                        j,
                        xs[j],
                        k,
                        #[trigger] a[j],
                    ) by {
                        lemma_some_member(s, xs[j], k);
                        if l.open[j] {
                            let vs = s.flatten(xs[j], k);
                            assert(a[j] == if j == e {
                                vs[i]
                            } else {
                                vs[0]
                            });
                        }
                    }
                    lemma_ahead(l, 0, xs[0], k, a);
                    assert(l.ahead(0, xs[0], none, k, a));
                    lemma_matched(s, xs, ys, k, a);
                    assert(goes(s, xs, ys, k, e, a[e]));
                    if shown(s, us[i], ys[e]) {
                        lemma_flat_plain(s, xs[e], k, i);
                        lemma_shown(s, ys[e], us[i], k, f);
                    }
                }
            }
        }
    }
    if forall|e: int|
        0 <= e < n ==> s.all_below_some(s.flatten(#[trigger] xs[e], k), s.flatten(ys[e], k)) {
        assert forall|a: Seq<u32>| #[trigger] l.ahead(0, xs[0], none, k, a) implies matched(
            s,
            xs,
            ys,
            k,
            a,
        ) by {
            lemma_ahead(l, 0, xs[0], k, a);
            assert forall|e: int| 0 <= e < n implies goes(s, xs, ys, k, e, #[trigger] a[e]) by {
                assert(member(l, e, xs[e], k, a[e]));
                if l.open[e] {
                    let us = s.flatten(xs[e], k);
                    let i = choose|i: int| 0 <= i < us.len() && us[i] == a[e];
                    assert(s.below_some(us[i], s.flatten(ys[e], k)));
                }
            }
            lemma_matched(s, xs, ys, k, a);
        }
    }
}

proof fn lemma_wider(s: State, t: u32, d: nat, e: nat)
    requires
        s.union_to(t, d),
        d <= e,
    ensures
        s.union_to(t, e),
        s.flatten(t, e) == s.flatten(t, d),
    decreases e - d,
{
    if d < e {
        lemma_roomy(s, t, d);
        lemma_wider(s, t, d + 1, e);
    }
}

proof fn lemma_spread_same(s: State, t: State, xs: Seq<u32>, k: nat, i: int)
    requires
        ground::same_objects(s, t),
    ensures
        spread(s, xs, k, i) == spread(t, xs, k, i),
    decreases xs.len() - i,
{
    if 0 <= i < xs.len() {
        lemma_union_same(s, t, xs[i], k);
        lemma_spread_same(s, t, xs, k, i + 1);
    }
}

/// No element has more members than there are combinations.
proof fn lemma_factor(s: State, xs: Seq<u32>, k: nat, i: int, e: int)
    requires
        0 <= i <= xs.len(),
        i <= e,
    ensures
        spread(s, xs, k, i) > 0,
        e < xs.len() ==> s.flatten(xs[e], k).len() <= spread(s, xs, k, i),
    decreases xs.len() - i,
{
    if i < xs.len() {
        let a = s.flatten(xs[i], k).len();
        let b = spread(s, xs, k, i + 1);
        lemma_some_member(s, xs[i], k);
        lemma_factor(s, xs, k, i + 1, if e > i {
            e
        } else {
            i + 1
        });
        assert(a * b >= a && a * b >= b) by (nonlinear_arith)
            requires
                a > 0,
                b > 0,
        ;
    }
}

proof fn lemma_no_tail(s: State, v: u32, k: nat)
    requires
        s.types_agree(),
        s.union_to(v, k),
    ensures
        !s.is_vararg(v),
{
}

/// Tuples of different lengths are not below each other, and the empty ones are.
proof fn lemma_lengths(q: Q, x: u32, y: u32, fuel: nat)
    requires
        q.s.types_agree(),
        q.s.is_datatype(x) && q.s.is_datatype(y),
        q.s.is_tuple(x) && q.s.is_tuple(y),
        !q.s.is_type_type(x) && !q.s.is_type_type(y),
        x != y,
        y != q.s.builtin(id::ANY),
        x != q.s.builtin(id::BOTTOM),
        ({
            let xs = q.s.svec_seq(q.s.parameters(x));
            let ys = q.s.svec_seq(q.s.parameters(y));
            &&& xs.len() != ys.len() || xs.len() == 0
            &&& xs.len() > 0 ==> !q.s.is_vararg(xs.last())
            &&& ys.len() > 0 ==> !q.s.is_vararg(ys.last())
        }),
        fuel >= 4,
    ensures
        q.sub(x, y, Param::Top, fuel) == (
            q,
            q.s.svec_seq(q.s.parameters(x)).len() == q.s.svec_seq(q.s.parameters(y)).len(),
        ),
{
    reveal(Q::sub);
    reveal(Q::sub_right);
    reveal(Q::sub_vars);
    reveal(Q::sub_ground);
    reveal(Q::sub_datatype);
    reveal(Q::sub_tuple);
    let s = q.s;
    let f1: nat = (fuel - 1) as nat;
    let f2: nat = (fuel - 2) as nat;
    let px = s.parameters(x);
    let py = s.parameters(y);
    let end = (q, s.svec_seq(px).len() == s.svec_seq(py).len());
    assert(s.super_named(x, s.name_of(y), MAX_NESTING as nat) == Some(x));
    assert(q.sub_tuple(x, y, Param::Covariant, f2) == end);
    assert(q.sub_datatype(x, y, Param::Top, f1) == end);
    assert(q.sub_ground(x, y, Param::Top, fuel) == end);
    assert(q.sub_vars(x, y, Param::Top, fuel) == end);
    assert(q.sub_right(x, y, Param::Top, fuel) == end);
}

impl State {
    /// Whether `x` is a tuple type whose elements are unions of plain types, nested no
    /// deeper than `k`, with no more combinations of members than a query makes passes
    /// and no more decisions than it keeps.
    pub open spec fn tuple_of_unions(self, x: u32, k: nat) -> bool {
        let xs = self.svec_seq(self.parameters(x));
        &&& self.is_datatype(x)
        &&& self.is_tuple(x)
        &&& !self.is_type_type(x)
        &&& x != self.builtin(id::ANY)
        &&& x != self.builtin(id::BOTTOM)
        &&& k <= MAX_NESTING
        &&& k * xs.len() <= 0x3fff_ffff
        &&& spread(self, xs, k, 0) <= MAX_PASSES
        &&& forall|e: int| 0 <= e < xs.len() ==> self.union_to(#[trigger] xs[e], k)
    }
}

/// The query of two such tuples of one length compares them element by element.
#[verifier::rlimit(40)]
#[verifier::spinoff_prover]
proof fn lemma_tuples_query(s: State, x: u32, y: u32, k: nat)
    requires
        s.types_agree(),
        8 * s.objs.len() <= REGION_SIZE,
        s.tuple_of_unions(x, k),
        s.tuple_of_unions(y, k),
        x != y,
        s.svec_seq(s.parameters(x)).len() == s.svec_seq(s.parameters(y)).len(),
        s.svec_seq(s.parameters(x)).len() > 0,
    ensures
        s.subtype(x, y, MAX_NESTING as nat).0 == s,
        ({
            let xs = s.svec_seq(s.parameters(x));
            let ys = s.svec_seq(s.parameters(y));
            s.subtype(x, y, MAX_NESTING as nat).1 <==> forall|e: int|
                0 <= e < xs.len() ==> s.all_below_some(
                    s.flatten(#[trigger] xs[e], k),
                    s.flatten(ys[e], k),
                )
        }),
{
    reveal(State::subtype);
    reveal(Q::forall_exists);
    let xs = s.svec_seq(s.parameters(x));
    let ys = s.svec_seq(s.parameters(y));
    let t = s.push_roots(seq![x, y]);
    let q = Q { s: t, e: EnvV::empty() };
    let (q1, se) = q.save();
    let none = Seq::<bool>::empty();
    assert(bounds(q.e.vars) =~= Seq::<u32>::empty());
    assert(t.push_roots(Seq::<u32>::empty()) =~= t);
    assert(q1 =~= q);
    assert(q.e.l.bits.take(0) =~= none);
    ground::lemma_agree_same(s, t);
    assert forall|e: int| 0 <= e < xs.len() implies t.union_to(#[trigger] xs[e], k) by {
        lemma_union_same(s, t, xs[e], k);
    }
    assert forall|e: int| 0 <= e < ys.len() implies t.union_to(#[trigger] ys[e], k) by {
        lemma_union_same(s, t, ys[e], k);
    }
    lemma_spread_same(s, t, xs, k, 0);
    lemma_spread_same(s, t, ys, k, 0);
    assert(ready(t, xs, ys, k));
    let l = left_row(t, xs, ys, k);
    let r = right_row(t, xs, ys, k, xs);
    assert forall|e: int| #![trigger xs[e]] 0 <= e < xs.len() implies !t.is_vararg(xs[e])
        && !t.is_vararg(ys[e]) by {
        lemma_no_tail(t, xs[e], k);
        lemma_no_tail(t, ys[e], k);
    }
    assert(t.svec_seq(t.parameters(x)) =~= xs);
    assert(t.svec_seq(t.parameters(y)) =~= ys);
    assert(tuples_of(l, r, x, y));
    lemma_count(l, 0, xs[0], k);
    assert(spread(t, xs, k, 0) == t.flatten(xs[0], k).len() * spread(t, xs, k, 1));
    let f: nat = (MAX_NESTING - 1) as nat;
    lemma_enumerate(q, xs, ys, k, x, y, none, se, f, MAX_PASSES as nat);
    lemma_elementwise(t, xs, ys, k);
    let walk = q.forall_loop(x, y, Param::Top, se, f, MAX_PASSES as nat);
    assert(q.with_env(EnvV { l: UnionV { used: 0, ..q.e.l }, ..q.e }) =~= q);
    assert(walk.0.release(se).s =~= t);
    assert(t.pop_roots(2) =~= s);
    assert forall|e: int| 0 <= e < xs.len() implies t.all_below_some(
        t.flatten(#[trigger] xs[e], k),
        t.flatten(ys[e], k),
    ) == s.all_below_some(s.flatten(xs[e], k), s.flatten(ys[e], k)) by {
        lemma_union_same(s, t, xs[e], k);
        lemma_union_same(s, t, ys[e], k);
        let us = s.flatten(xs[e], k);
        let zs = s.flatten(ys[e], k);
        if s.all_below_some(us, zs) {
            lemma_members_same(s, t, us, zs);
        }
        if t.all_below_some(us, zs) {
            lemma_members_same(t, s, us, zs);
        }
    }
}

/// Tuples of unions are covariant: a tuple type whose elements are unions of plain
/// types is below another exactly if they have equally many elements and each element
/// is below the other's. The answer leaves no trace.
pub proof fn law_tuples_of_unions_are_covariant(s: State, x: u32, y: u32, k: nat)
    requires
        s.types_agree(),
        8 * s.objs.len() <= REGION_SIZE,
        s.tuple_of_unions(x, k),
        s.tuple_of_unions(y, k),
    ensures
        s.subtype(x, y, MAX_NESTING as nat).0 == s,
        s.subtype(x, y, MAX_NESTING as nat).1 <==> {
            let xs = s.svec_seq(s.parameters(x));
            let ys = s.svec_seq(s.parameters(y));
            &&& xs.len() == ys.len()
            &&& forall|i: int|
                0 <= i < xs.len() ==> (#[trigger] s.subtype(
                    xs[i],
                    ys[i],
                    MAX_NESTING as nat,
                )).1
        },
{
    let d = MAX_NESTING as nat;
    let xs = s.svec_seq(s.parameters(x));
    let ys = s.svec_seq(s.parameters(y));
    if x == y {
        law_subtype_reflexive(s, x);
        assert forall|i: int| 0 <= i < xs.len() implies (#[trigger] s.subtype(
            xs[i],
            ys[i],
            d,
        )).1 by {
            law_subtype_reflexive(s, xs[i]);
        }
    } else if xs.len() != ys.len() || xs.len() == 0 {
        let q = Q { s: s.push_roots(seq![x, y]), e: EnvV::empty() };
        ground::lemma_agree_same(s, q.s);
        if xs.len() > 0 {
            lemma_no_tail(s, xs.last(), k);
        }
        if ys.len() > 0 {
            lemma_no_tail(s, ys.last(), k);
        }
        lemma_lengths(q, x, y, (d - 2) as nat);
        ground::lemma_once(s, x, y, xs.len() == ys.len(), d);
    } else {
        lemma_tuples_query(s, x, y, k);
        assert forall|i: int| 0 <= i < xs.len() implies (#[trigger] s.subtype(xs[i], ys[i], d)).1
            == s.all_below_some(s.flatten(xs[i], k), s.flatten(ys[i], k)) by {
            lemma_factor(s, xs, k, 0, i);
            lemma_factor(s, ys, k, 0, i);
            lemma_wider(s, xs[i], k, d);
            lemma_wider(s, ys[i], k, d);
            law_union_query(s, xs[i], ys[i], d);
        }
        if s.subtype(x, y, d).1 {
            assert forall|i: int| 0 <= i < xs.len() implies (#[trigger] s.subtype(
                xs[i],
                ys[i],
                d,
            )).1 by {
                assert(s.all_below_some(s.flatten(xs[i], k), s.flatten(ys[i], k)));
            }
        }
        if forall|i: int| 0 <= i < xs.len() ==> (#[trigger] s.subtype(xs[i], ys[i], d)).1 {
            assert forall|e: int| 0 <= e < xs.len() implies s.all_below_some(
                s.flatten(#[trigger] xs[e], k),
                s.flatten(ys[e], k),
            ) by {
                assert(s.subtype(xs[e], ys[e], d).1);
            }
        }
    }
}

} // verus!
