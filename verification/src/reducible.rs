//! Every reducible graph has structured code: the walk of its plan never fails.

use vstd::prelude::*;
use crate::graph::{
    is_idom, is_positions, law_dominators_come_first, law_immediate_dominator, law_rpo, CfgV,
};
use crate::relooper::{depth, dominated, forward_preds, merges_of, terms_fit, Frame, PlanV, Term};

verus! {

/// Whether the blocks end with edges of the graph.
pub open spec fn terms_match(g: CfgV, terms: Seq<Term>) -> bool {
    &&& terms_fit(terms, g.n() as nat)
    &&& forall|x: int|
        0 <= x < g.n() ==> match #[trigger] terms[x] {
            Term::If { then_, else_ } => g.edge(x, then_ as int) && g.edge(x, else_ as int),
            Term::Goto(t) => g.edge(x, t as int),
            Term::Return => true,
        }
}

/// Whether edges go back to dominators only.
pub open spec fn backs_dominate(g: CfgV) -> bool {
    forall|u: int, v: int| #[trigger] g.edge(u, v) && g.goes_back(u, v) ==> g.dominates(v, u)
}

proof fn lemma_no_bad_edge(g: CfgV, u0: int, k0: int, u: int, k: int)
    requires
        g.wf(),
        g.bad_edge(u0, k0) is None,
        0 <= u0 <= u < g.n(),
        0 <= k0,
        0 <= k < g.succs[u].len(),
        u == u0 ==> k0 <= k,
        g.goes_back(u, g.succs[u][k] as int),
    ensures
        g.dominates(g.succs[u][k] as int, u),
    decreases
            g.n() - u0,
            (if 0 <= u0 < g.n() && k0 < g.succs[u0].len() {
                g.succs[u0].len() - k0
            } else {
                0
            }),
{
    if k0 >= g.succs[u0].len() {
        lemma_no_bad_edge(g, u0 + 1, 0, u, k);
    } else if !(u == u0 && k == k0) {
        lemma_no_bad_edge(g, u0, k0 + 1, u, k);
    }
}

pub(crate) proof fn lemma_backs(g: CfgV)
    requires
        g.wf(),
        g.bad_edge(0, 0) is None,
    ensures
        backs_dominate(g),
{
    assert forall|u: int, v: int| #[trigger] g.edge(u, v) && g.goes_back(u, v) implies g.dominates(
        v,
        u,
    ) by {
        let k = choose|k: int| 0 <= k < g.succs[u].len() && g.succs[u][k] == v as usize;
        lemma_no_bad_edge(g, 0, 0, u, k);
    }
}

// --- the dominator tree -----------------------------------------------------

/// What is listed as dominated comes in order and is all there is.
pub(crate) proof fn lemma_dominated(g: CfgV, pos: Seq<usize>, idom: Seq<usize>, x: int, k: int)
    requires
        g.wf(),
        is_positions(g, pos),
        0 <= k <= g.n(),
    ensures
        ({
            let d = dominated(g.rpo(), idom, x, k);
            &&& forall|i: int|
                0 <= i < d.len() ==> {
                    &&& 0 < #[trigger] d[i] < g.n()
                    &&& idom[d[i] as int] == x
                    &&& pos[d[i] as int] < k
                }
            &&& forall|i: int, j: int|
                0 <= i < j < d.len() ==> pos[#[trigger] d[i] as int] < pos[#[trigger] d[j] as int]
            &&& forall|b: int|
                0 < b < g.n() && #[trigger] idom[b] == x && pos[b] < k ==> d.contains(b as usize)
        }),
    decreases k,
{
    if k > 0 {
        lemma_dominated(g, pos, idom, x, k - 1);
        law_rpo(g);
        let rest = dominated(g.rpo(), idom, x, k - 1);
        let d = dominated(g.rpo(), idom, x, k);
        let b0 = g.rpo()[k - 1];
        assert(pos[b0 as int] == k - 1);
        assert forall|b: int| 0 < b < g.n() && #[trigger] idom[b] == x && pos[b] < k implies d.contains(
            b as usize,
        ) by {
            if pos[b] < k - 1 {
                assert(rest.contains(b as usize));
                let i = choose|i: int| 0 <= i < rest.len() && rest[i] == b as usize;
                assert(d[i] == b as usize);
            } else {
                assert(g.rpo()[pos[b] as int] == b);
                assert(d[d.len() - 1] == b as usize);
            }
        }
    }
}

/// The merges of a list come in the list's order and are all there are.
pub(crate) proof fn lemma_merges(list: Seq<usize>, merge: Seq<bool>, pos: Seq<usize>, k: int)
    requires
        0 <= k <= list.len(),
        forall|i: int, j: int|
            0 <= i < j < list.len() ==> pos[#[trigger] list[i] as int] < pos[#[trigger] list[j] as int],
    ensures
        ({
            let m = merges_of(list, merge, k);
            &&& forall|i: int|
                0 <= i < m.len() ==> merge[#[trigger] m[i] as int] && exists|a: int|
                    0 <= a < k && list[a] == m[i]
            &&& forall|i: int, j: int|
                0 <= i < j < m.len() ==> pos[#[trigger] m[i] as int] < pos[#[trigger] m[j] as int]
            &&& forall|a: int|
                0 <= a < k && merge[#[trigger] list[a] as int] ==> m.contains(list[a])
        }),
    decreases k,
{
    if k > 0 {
        lemma_merges(list, merge, pos, k - 1);
        let rest = merges_of(list, merge, k - 1);
        let m = merges_of(list, merge, k);
        assert forall|i: int, j: int| 0 <= i < j < m.len() implies pos[#[trigger] m[i] as int]
            < pos[#[trigger] m[j] as int] by {
            if j < rest.len() {
                assert(m[i] == rest[i] && m[j] == rest[j]);
            } else {
                assert(m[i] == rest[i]);
                let a = choose|a: int| 0 <= a < k - 1 && list[a] == rest[i];
                assert(pos[list[a] as int] < pos[list[k - 1] as int]);
            }
        }
        assert forall|i: int| 0 <= i < m.len() implies merge[#[trigger] m[i] as int] && exists|a: int|
            0 <= a < k && list[a] == m[i] by {
            if i < rest.len() {
                assert(m[i] == rest[i]);
                let a = choose|a: int| 0 <= a < k - 1 && list[a] == rest[i];
                assert(list[a] == m[i]);
            } else {
                assert(list[k - 1] == m[i]);
            }
        }
        assert forall|a: int| 0 <= a < k && merge[#[trigger] list[a] as int] implies m.contains(
            list[a],
        ) by {
            if a < k - 1 {
                assert(rest.contains(list[a]));
                let i = choose|i: int| 0 <= i < rest.len() && rest[i] == list[a];
                assert(m[i] == list[a]);
            } else {
                assert(m[m.len() - 1] == list[a]);
            }
        }
    }
}

/// The merges below a block: in order, immediately dominated, and all of them.
proof fn lemma_merges_below(g: CfgV, p: PlanV, x: int)
    requires
        g.wf(),
        p.is_for(g),
        0 <= x < g.n(),
    ensures
        ({
            let m = p.merges(x);
            &&& forall|i: int|
                0 <= i < m.len() ==> {
                    &&& 0 < #[trigger] m[i] < g.n()
                    &&& p.idom[m[i] as int] == x
                    &&& p.merge[m[i] as int]
                }
            &&& forall|i: int, j: int|
                0 <= i < j < m.len() ==> p.pos[#[trigger] m[i] as int] < p.pos[#[trigger] m[j] as int]
            &&& forall|t: int|
                0 < t < g.n() && #[trigger] p.idom[t] == x && p.merge[t] ==> m.contains(t as usize)
        }),
{
    let list = p.children[x];
    lemma_dominated(g, p.pos, p.idom, x, g.n());
    lemma_merges(list, p.merge, p.pos, list.len() as int);
    let m = p.merges(x);
    assert forall|i: int| 0 <= i < m.len() implies 0 < #[trigger] m[i] < g.n() && p.idom[m[i] as int]
        == x && p.merge[m[i] as int] by {
        let a = choose|a: int| 0 <= a < list.len() && list[a] == m[i];
        assert(list[a] == m[i]);
    }
    assert forall|t: int| 0 < t < g.n() && #[trigger] p.idom[t] == x && p.merge[t] implies m.contains(
        t as usize,
    ) by {
        assert(p.pos[t] < g.n());
        assert(list.contains(t as usize));
        let a = choose|a: int| 0 <= a < list.len() && list[a] == t as usize;
        assert(p.merge[list[a] as int]);
    }
}

pub proof fn lemma_two_forward(preds: Seq<usize>, pos: Seq<usize>, v: int, k: int, i: int, j: int)
    requires
        0 <= k <= preds.len(),
        0 <= i < k,
        0 <= j < k,
        i != j,
        pos[preds[i] as int] < pos[v],
        pos[preds[j] as int] < pos[v],
    ensures
        forward_preds(preds, pos, v, k) >= 2,
    decreases k,
{
    if i == k - 1 {
        lemma_one_forward(preds, pos, v, k - 1, j);
    } else if j == k - 1 {
        lemma_one_forward(preds, pos, v, k - 1, i);
    } else {
        lemma_two_forward(preds, pos, v, k - 1, i, j);
    }
}

proof fn lemma_one_forward(preds: Seq<usize>, pos: Seq<usize>, v: int, k: int, i: int)
    requires
        0 <= i < k <= preds.len(),
        pos[preds[i] as int] < pos[v],
    ensures
        forward_preds(preds, pos, v, k) >= 1,
    decreases k,
{
    if i < k - 1 {
        lemma_one_forward(preds, pos, v, k - 1, i);
    }
}

/// The first place of `t` on a path.
proof fn lemma_first_on_path(q: Seq<usize>, t: usize, i: int) -> (k: int)
    requires
        0 <= i < q.len(),
        q[i] == t,
    ensures
        0 <= k <= i,
        q[k] == t,
        forall|j: int| 0 <= j < k ==> q[j] != t,
    decreases i,
{
    if exists|j: int| 0 <= j < i && q[j] == t {
        let j = choose|j: int| 0 <= j < i && q[j] == t;
        lemma_first_on_path(q, t, j)
    } else {
        i
    }
}

/// A block that is no merge is dominated immediately by the one block that goes
/// forward to it.
pub(crate) proof fn lemma_sole_pred(g: CfgV, p: PlanV, x: int, t: int)
    requires
        g.wf(),
        p.is_for(g),
        backs_dominate(g),
        g.edge(x, t),
        p.pos[x] < p.pos[t],
        !p.merge[t],
    ensures
        t > 0,
        p.idom[t] == x,
{
    law_rpo(g);
    assert(p.pos[g.rpo()[0] as int] == 0);
    assert(t != 0);
    assert(g.preds[t].contains(x as usize));
    let i = choose|i: int| 0 <= i < g.preds[t].len() && g.preds[t][i] == x as usize;
    assert(g.dominates(x, t)) by {
        if g.avoids(x, t) {
            let q = choose|q: Seq<usize>| g.leads(q, x, t);
            let k = lemma_first_on_path(q, t as usize, q.len() - 1);
            assert(k > 0);
            let u = q[k - 1] as int;
            assert(g.edge(q[k - 1] as int, q[k - 1 + 1] as int));
            assert(u != x);
            if g.goes_back(u, t) {
                assert(g.dominates(t, u));
                let r = q.take(k);
                assert forall|m: int| 0 <= m < r.len() - 1 implies g.edge(
                    #[trigger] r[m] as int,
                    r[m + 1] as int,
                ) by {
                    assert(r[m] == q[m] && r[m + 1] == q[m + 1]);
                }
                assert forall|m: int| 0 <= m < r.len() implies #[trigger] r[m] != t by {
                    assert(r[m] == q[m]);
                }
                assert(r.last() == u);
                assert(r[0] == q[0]);
                assert(g.leads(r, t, u));
            } else {
                assert(g.preds[t].contains(u as usize));
                let j = choose|j: int| 0 <= j < g.preds[t].len() && g.preds[t][j] == u as usize;
                lemma_two_forward(g.preds[t], p.pos, t, g.preds[t].len() as int, i, j);
            }
        }
    }
    let d = p.idom[t] as int;
    assert(is_idom(g, p.pos, d, t));
    assert(p.pos[x] <= p.pos[d]);
    if d != x {
        law_immediate_dominator(g, p.pos, d, x, t);
        law_dominators_come_first(g, p.pos, x, d);
        lemma_dominates_pred(g, d, x, t);
        law_dominators_come_first(g, p.pos, d, x);
    }
}

/// What dominates a block dominates the blocks before it, but for the block itself.
proof fn lemma_dominates_pred(g: CfgV, d: int, u: int, t: int)
    requires
        g.wf(),
        g.dominates(d, t),
        d != t,
        g.edge(u, t),
    ensures
        g.dominates(d, u),
{
    if g.avoids(d, u) {
        let q = choose|q: Seq<usize>| g.leads(q, d, u);
        let r = q.push(t as usize);
        assert forall|m: int| 0 <= m < r.len() - 1 implies g.edge(
            #[trigger] r[m] as int,
            r[m + 1] as int,
        ) by {
            assert(r[m] == q[m]);
            if m < q.len() - 1 {
                assert(r[m + 1] == q[m + 1]);
            } else {
                assert(r[m + 1] == t as usize);
            }
        }
        assert forall|m: int| 0 <= m < r.len() implies #[trigger] r[m] != d by {
            if m < q.len() {
                assert(r[m] == q[m]);
            }
        }
        assert(r[0] == q[0]);
        assert(r.last() == t);
        assert(g.leads(r, d, t));
    }
}

// --- frames -----------------------------------------------------------------

/// Whether the frames are open that the code below `x` may branch out of.
spec fn ready_tree(g: CfgV, p: PlanV, frames: Seq<Frame>, x: int) -> bool {
    &&& forall|h: int|
        0 <= h < g.n() && #[trigger] p.header[h] && g.dominates(h, x) && h != x ==> frames.contains(
            Frame::Loop(h as usize),
        )
    &&& forall|t: int|
        0 < t < g.n() && #[trigger] p.merge[t] && g.dominates(p.idom[t] as int, x) && p.idom[t] != x
            && p.pos[t] > p.pos[x] ==> frames.contains(Frame::Block(t as usize))
}

/// The same where the loop of `x` and its merges from number `k` on are open.
spec fn ready_node(g: CfgV, p: PlanV, frames: Seq<Frame>, x: int, k: int) -> bool {
    &&& forall|h: int|
        0 <= h < g.n() && #[trigger] p.header[h] && g.dominates(h, x) ==> frames.contains(
            Frame::Loop(h as usize),
        )
    &&& forall|t: int|
        0 < t < g.n() && #[trigger] p.merge[t] && g.dominates(p.idom[t] as int, x) && p.pos[t]
            > p.pos[x] && (p.idom[t] == x ==> p.merges(x).skip(k).contains(t as usize))
            ==> frames.contains(Frame::Block(t as usize))
}

proof fn lemma_has_depth(frames: Seq<Frame>, f: Frame, k: int, i: int)
    requires
        0 <= i < k <= frames.len(),
        frames[i] == f,
    ensures
        depth(frames, f, k) is Some,
    decreases k,
{
    if frames[k - 1] != f {
        lemma_has_depth(frames, f, k - 1, i);
    }
}

proof fn lemma_leave_ok(p: PlanV, frames: Seq<Frame>, f: Frame)
    requires
        frames.contains(f),
    ensures
        p.leave(frames, f).1 is Ok,
{
    let i = choose|i: int| 0 <= i < frames.len() && frames[i] == f;
    lemma_has_depth(frames, f, frames.len() as int, i);
}

proof fn lemma_push_has(frames: Seq<Frame>, f: Frame, x: Frame)
    ensures
        frames.contains(x) ==> frames.push(f).contains(x),
        frames.push(f).contains(f),
{
    if frames.contains(x) {
        let i = choose|i: int| 0 <= i < frames.len() && frames[i] == x;
        assert(frames.push(f)[i] == x);
    }
    assert(frames.push(f)[frames.len() as int] == f);
}

spec fn setting(g: CfgV, p: PlanV, terms: Seq<Term>) -> bool {
    &&& g.wf()
    &&& p.is_for(g)
    &&& p.wf()
    &&& backs_dominate(g)
    &&& terms_match(g, terms)
    &&& p.n() == g.n()
}

proof fn lemma_tree_ok(g: CfgV, p: PlanV, terms: Seq<Term>, frames: Seq<Frame>, x: int)
    requires
        setting(g, p, terms),
        0 <= x < g.n(),
        ready_tree(g, p, frames, x),
    ensures
        p.tree(terms, frames, x).1 is Ok,
    decreases p.rank(x), 2int, 0int,
{
    let k = p.merges(x).len() as int;
    let inner = if p.header[x] {
        frames.push(Frame::Loop(x as usize))
    } else {
        frames
    };
    assert(p.merges(x).skip(k) =~= Seq::empty());
    assert(ready_node(g, p, inner, x, k)) by {
        assert forall|h: int|
            0 <= h < g.n() && #[trigger] p.header[h] && g.dominates(h, x) implies inner.contains(
            Frame::Loop(h as usize),
        ) by {
            lemma_push_has(frames, Frame::Loop(x as usize), Frame::Loop(h as usize));
        }
        assert forall|t: int|
            0 < t < g.n() && #[trigger] p.merge[t] && g.dominates(p.idom[t] as int, x) && p.pos[t]
                > p.pos[x] && (p.idom[t] == x ==> p.merges(x).skip(k).contains(
                t as usize,
            )) implies inner.contains(Frame::Block(t as usize)) by {
            lemma_push_has(frames, Frame::Loop(x as usize), Frame::Block(t as usize));
        }
    }
    lemma_node_ok(g, p, terms, inner, x, k);
}

proof fn lemma_node_ok(g: CfgV, p: PlanV, terms: Seq<Term>, frames: Seq<Frame>, x: int, k: int)
    requires
        setting(g, p, terms),
        0 <= x < g.n(),
        0 <= k <= p.merges(x).len(),
        ready_node(g, p, frames, x, k),
    ensures
        p.node(terms, frames, x, k).1 is Ok,
    decreases p.rank(x), 1int, k,
{
    let m = p.merges(x);
    lemma_merges_below(g, p, x);
    if k > 0 {
        let last = m[k - 1];
        let inner = frames.push(Frame::Block(last));
        assert(ready_node(g, p, inner, x, k - 1)) by {
            assert forall|h: int|
                0 <= h < g.n() && #[trigger] p.header[h] && g.dominates(h, x) implies inner.contains(
                Frame::Loop(h as usize),
            ) by {
                lemma_push_has(frames, Frame::Block(last), Frame::Loop(h as usize));
            }
            assert forall|t: int|
                0 < t < g.n() && #[trigger] p.merge[t] && g.dominates(p.idom[t] as int, x) && p.pos[t]
                    > p.pos[x] && (p.idom[t] == x ==> m.skip(k - 1).contains(
                    t as usize,
                )) implies inner.contains(Frame::Block(t as usize)) by {
                lemma_push_has(frames, Frame::Block(last), Frame::Block(t as usize));
                if p.idom[t] == x && t != last {
                    let tail = m.skip(k - 1);
                    let i = choose|i: int| 0 <= i < tail.len() && tail[i] == t as usize;
                    assert(tail[i] == m[k - 1 + i]);
                    assert(i > 0);
                    assert(m.skip(k)[i - 1] == m[k - 1 + i]);
                    assert(m.skip(k).contains(t as usize));
                }
            }
        }
        lemma_node_ok(g, p, terms, inner, x, k - 1);
        let y = last as int;
        assert(is_idom(g, p.pos, p.idom[y] as int, y));
        law_dominators_come_first(g, p.pos, x, y);
        assert(ready_tree(g, p, frames, y)) by {
            assert forall|h: int|
                0 <= h < g.n() && #[trigger] p.header[h] && g.dominates(h, y) && h
                    != y implies frames.contains(Frame::Loop(h as usize)) by {
                law_immediate_dominator(g, p.pos, x, h, y);
            }
            assert forall|t: int|
                0 < t < g.n() && #[trigger] p.merge[t] && g.dominates(p.idom[t] as int, y) && p.idom[t]
                    != y && p.pos[t] > p.pos[y] implies frames.contains(
                Frame::Block(t as usize),
            ) by {
                assert(is_idom(g, p.pos, p.idom[t] as int, t));
                law_immediate_dominator(g, p.pos, x, p.idom[t] as int, y);
                if p.idom[t] == x {
                    assert(m.contains(t as usize));
                    let i = choose|i: int| 0 <= i < m.len() && m[i] == t as usize;
                    if i < k - 1 {
                        assert(p.pos[m[i] as int] < p.pos[m[k - 1] as int]);
                    }
                    assert(i >= k);
                    assert(m.skip(k)[i - k] == t as usize);
                    assert(m.skip(k).contains(t as usize));
                }
            }
        }
        lemma_tree_ok(g, p, terms, frames, y);
    } else {
        match terms[x] {
            Term::If { then_, else_ } => {
                let inner = frames.push(Frame::If);
                assert(ready_node(g, p, inner, x, 0)) by {
                    assert forall|h: int|
                        0 <= h < g.n() && #[trigger] p.header[h] && g.dominates(
                            h,
                            x,
                        ) implies inner.contains(Frame::Loop(h as usize)) by {
                        lemma_push_has(frames, Frame::If, Frame::Loop(h as usize));
                    }
                    assert forall|t: int|
                        0 < t < g.n() && #[trigger] p.merge[t] && g.dominates(p.idom[t] as int, x)
                            && p.pos[t] > p.pos[x] && (p.idom[t] == x ==> m.skip(0).contains(
                            t as usize,
                        )) implies inner.contains(Frame::Block(t as usize)) by {
                        lemma_push_has(frames, Frame::If, Frame::Block(t as usize));
                    }
                }
                lemma_branch_ok(g, p, terms, inner, x, then_ as int);
                lemma_branch_ok(g, p, terms, inner, x, else_ as int);
            },
            Term::Goto(t) => {
                lemma_branch_ok(g, p, terms, frames, x, t as int);
            },
            Term::Return => {},
        }
    }
}

proof fn lemma_branch_ok(g: CfgV, p: PlanV, terms: Seq<Term>, frames: Seq<Frame>, x: int, t: int)
    requires
        setting(g, p, terms),
        g.edge(x, t),
        ready_node(g, p, frames, x, 0),
    ensures
        p.branch(terms, frames, x, t).1 is Ok,
    decreases p.rank(x), 0int, 0int,
{
    let m = p.merges(x);
    lemma_merges_below(g, p, x);
    if p.pos[t] <= p.pos[x] {
        assert(g.goes_back(x, t));
        assert(p.header[t]);
        assert(g.dominates(t, x));
        lemma_leave_ok(p, frames, Frame::Loop(t as usize));
    } else {
        law_rpo(g);
        assert(p.pos[g.rpo()[0] as int] == 0);
        assert(t > 0);
        if p.merge[t] {
            let d = p.idom[t] as int;
            assert(is_idom(g, p.pos, d, t));
            lemma_dominates_pred(g, d, x, t);
            if d == x {
                assert(m.contains(t as usize));
                assert(m.skip(0) =~= m);
            }
            lemma_leave_ok(p, frames, Frame::Block(t as usize));
        } else {
            lemma_sole_pred(g, p, x, t);
            assert(is_idom(g, p.pos, x, t)) by {
                assert(is_idom(g, p.pos, p.idom[t] as int, t));
            }
            assert(m.skip(0) =~= m);
            assert(ready_tree(g, p, frames, t)) by {
                assert forall|h: int|
                    0 <= h < g.n() && #[trigger] p.header[h] && g.dominates(h, t) && h
                        != t implies frames.contains(Frame::Loop(h as usize)) by {
                    law_immediate_dominator(g, p.pos, x, h, t);
                }
                assert forall|y: int|
                    0 < y < g.n() && #[trigger] p.merge[y] && g.dominates(p.idom[y] as int, t)
                        && p.idom[y] != t && p.pos[y] > p.pos[t] implies frames.contains(
                    Frame::Block(y as usize),
                ) by {
                    assert(is_idom(g, p.pos, p.idom[y] as int, y));
                    law_immediate_dominator(g, p.pos, x, p.idom[y] as int, t);
                    if p.idom[y] == x {
                        assert(m.contains(y as usize));
                    }
                }
            }
            lemma_tree_ok(g, p, terms, frames, t);
        }
    }
}

/// The walk of a reducible graph never fails: every target that is not emitted in
/// place has its frame open.
pub proof fn law_reducible_graphs_are_walked(g: CfgV, p: PlanV, terms: Seq<Term>)
    requires
        g.wf(),
        g.bad_edge(0, 0) is None,
        p.is_for(g),
        p.wf(),
        terms_match(g, terms),
    ensures
        p.walk(terms).1 is Ok,
{
    lemma_backs(g);
    let none = Seq::<Frame>::empty();
    assert(ready_tree(g, p, none, 0)) by {
        assert forall|h: int|
            0 <= h < g.n() && #[trigger] p.header[h] && g.dominates(h, 0) && h
                != 0 implies none.contains(Frame::Loop(h as usize)) by {
            law_dominators_come_first(g, p.pos, h, 0);
            law_rpo(g);
            assert(p.pos[g.rpo()[0] as int] == 0);
        }
        assert forall|t: int|
            0 < t < g.n() && #[trigger] p.merge[t] && g.dominates(p.idom[t] as int, 0) && p.idom[t]
                != 0 && p.pos[t] > p.pos[0] implies none.contains(Frame::Block(t as usize)) by {
            assert(is_idom(g, p.pos, p.idom[t] as int, t));
            law_dominators_come_first(g, p.pos, p.idom[t] as int, 0);
            law_rpo(g);
            assert(p.pos[g.rpo()[0] as int] == 0);
        }
    }
    lemma_tree_ok(g, p, terms, none, 0);
}

} // verus!
