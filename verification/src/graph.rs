//! Control-flow graphs: paths, reverse postorder and dominators.
//!
//! Blocks are numbered from zero and the entry is block zero. A block dominates
//! another where every path from the entry to the other passes through it.

use vstd::prelude::*;

verus! {

/// A control-flow graph: the blocks after and before each block.
pub struct Cfg {
    pub succs: Vec<Vec<usize>>,
    pub preds: Vec<Vec<usize>>,
}

/// The picture of a graph.
#[verifier::ext_equal]
pub struct CfgV {
    pub succs: Seq<Seq<usize>>,
    pub preds: Seq<Seq<usize>>,
}

/// The contents of some lists.
pub open spec fn lists(v: Seq<Vec<usize>>) -> Seq<Seq<usize>> {
    Seq::new(v.len(), |i: int| v[i]@)
}

impl View for Cfg {
    type V = CfgV;

    open spec fn view(&self) -> CfgV {
        CfgV { succs: lists(self.succs@), preds: lists(self.preds@) }
    }
}

impl CfgV {
    /// The number of blocks.
    pub open spec fn n(self) -> int {
        self.succs.len() as int
    }

    /// Whether `v` follows `u`.
    pub open spec fn edge(self, u: int, v: int) -> bool {
        &&& 0 <= u < self.n()
        &&& 0 <= v < self.n()
        &&& self.succs[u].contains(v as usize)
    }

    /// Whether there is an entry, all blocks exist, and both lists agree.
    pub open spec fn wf(self) -> bool {
        &&& 0 < self.n() <= usize::MAX
        &&& forall|u: int| 0 <= u < self.n() ==> (#[trigger] self.succs[u]).len() <= usize::MAX
        &&& self.preds.len() == self.n()
        &&& forall|u: int, i: int|
            #![trigger self.succs[u][i]]
            0 <= u < self.n() && 0 <= i < self.succs[u].len() ==> self.succs[u][i] < self.n()
        &&& forall|u: int, i: int|
            #![trigger self.preds[u][i]]
            0 <= u < self.n() && 0 <= i < self.preds[u].len() ==> self.preds[u][i] < self.n()
        &&& forall|u: int, v: int|
            0 <= u < self.n() && 0 <= v < self.n() ==> #[trigger] self.edge(u, v)
                == self.preds[v].contains(u as usize)
    }

    /// Whether `p` is a path from the entry.
    pub open spec fn is_path(self, p: Seq<usize>) -> bool {
        &&& p.len() > 0
        &&& p[0] == 0
        &&& self.n() > 0
        &&& forall|i: int| 0 <= i < p.len() - 1 ==> self.edge(#[trigger] p[i] as int, p[i + 1] as int)
    }

    /// Whether `p` leads from the entry to `b` without passing through `a`.
    pub open spec fn leads(self, p: Seq<usize>, a: int, b: int) -> bool {
        &&& self.is_path(p)
        &&& p.last() == b
        &&& forall|i: int| 0 <= i < p.len() ==> #[trigger] p[i] != a
    }

    /// Whether `b` can be reached without passing through `a`.
    pub open spec fn avoids(self, a: int, b: int) -> bool {
        exists|p: Seq<usize>| self.leads(p, a, b)
    }

    /// Whether `b` can be reached.
    pub open spec fn reachable(self, b: int) -> bool {
        self.avoids(-1, b)
    }

    /// Whether every path to `b` passes through `a`.
    pub open spec fn dominates(self, a: int, b: int) -> bool {
        !self.avoids(a, b)
    }
}

/// The number of entries that do not hold.
pub open spec fn unset(v: Seq<bool>) -> nat
    decreases v.len(),
{
    if v.len() == 0 {
        0
    } else {
        unset(v.drop_last()) + if v.last() {
            0nat
        } else {
            1nat
        }
    }
}

/// Setting an entry leaves one fewer unset.
pub proof fn lemma_unset(v: Seq<bool>, i: int)
    requires
        0 <= i < v.len(),
        !v[i],
    ensures
        unset(v.update(i, true)) + 1 == unset(v),
    decreases v.len(),
{
    let w = v.update(i, true);
    if i == v.len() - 1 {
        assert(w.drop_last() =~= v.drop_last());
    } else {
        assert(w.drop_last() =~= v.drop_last().update(i, true));
        lemma_unset(v.drop_last(), i);
    }
}

/// The postorder of a depth-first search that goes on with `stack`: each entry is a
/// block and the position of its next successor.
pub open spec fn dfs(
    g: CfgV,
    visited: Seq<bool>,
    stack: Seq<(usize, usize)>,
    post: Seq<usize>,
) -> Seq<usize>
    decreases
            unset(visited),
            stack.len(),
            (if stack.len() > 0 && stack.last().0 < g.n() && stack.last().1
                < g.succs[stack.last().0 as int].len() {
                g.succs[stack.last().0 as int].len() - stack.last().1
            } else {
                0
            }),
{
    if stack.len() == 0 {
        post
    } else {
        let (u, i) = stack.last();
        let below = stack.drop_last();
        if u < g.n() && i < g.succs[u as int].len() {
            let v = g.succs[u as int][i as int];
            let rest = below.push((u, (i + 1) as usize));
            if i < usize::MAX && v < visited.len() && !visited[v as int] {
                proof {
                    lemma_unset(visited, v as int);
                }
                dfs(g, visited.update(v as int, true), rest.push((v, 0)), post)
            } else if i < usize::MAX {
                dfs(g, visited, rest, post)
            } else {
                post
            }
        } else {
            dfs(g, visited, below, post.push(u))
        }
    }
}

/// Only the entry is visited.
pub open spec fn entry_only(n: int) -> Seq<bool> {
    Seq::new(n as nat, |i: int| i == 0)
}

impl CfgV {
    /// The reverse postorder from the entry, edges taken in the listed order.
    #[verifier::opaque]
    pub open spec fn rpo(self) -> Seq<usize> {
        dfs(self, entry_only(self.n()), seq![(0usize, 0usize)], Seq::empty()).reverse()
    }
}

/// Reverse postorder from the entry.
pub fn rpo(cfg: &Cfg) -> (r: Vec<usize>)
    requires
        cfg@.wf(),
    ensures
        r@ == cfg@.rpo(),
{
    proof {
        reveal(CfgV::rpo);
    }
    let n: usize = cfg.succs.len();
    let ghost g = cfg@;
    let mut visited: Vec<bool> = Vec::new();
    let mut k: usize = 0;
    while k < n
        invariant
            k <= n,
            visited.len() == k,
            forall|i: int| 0 <= i < k ==> visited@[i] == (i == 0),
        decreases n - k,
    {
        visited.push(k == 0);
        k = k + 1;
    }
    assert(visited@ =~= entry_only(g.n()));
    let mut post: Vec<usize> = Vec::new();
    let mut stack: Vec<(usize, usize)> = Vec::new();
    stack.push((0, 0));
    assert(stack@ =~= seq![(0usize, 0usize)]);
    assert(post@ =~= Seq::<usize>::empty());
    while stack.len() > 0
        invariant
            g == cfg@,
            g.wf(),
            n == g.n(),
            n == cfg.succs.len(),
            visited.len() == n,
            forall|j: int| 0 <= j < stack.len() ==> (#[trigger] stack@[j]).0 < n,
            dfs(g, entry_only(g.n()), seq![(0usize, 0usize)], Seq::empty()) == dfs(
                g,
                visited@,
                stack@,
                post@,
            ),
        decreases
                unset(visited@),
                stack.len(),
                (if stack.len() > 0 && stack@.last().0 < g.n() && stack@.last().1
                    < g.succs[stack@.last().0 as int].len() {
                    g.succs[stack@.last().0 as int].len() - stack@.last().1
                } else {
                    0
                }),
    {
        let top: usize = stack.len() - 1;
        let (u, i): (usize, usize) = stack[top];
        let ghost s0 = stack@;
        let ghost v0 = visited@;
        assert(s0.last() == (u, i));
        assert(g.succs[u as int] == cfg.succs@[u as int]@);
        if i < cfg.succs[u].len() {
            let v: usize = cfg.succs[u][i];
            assert(v == g.succs[u as int][i as int]);
            stack.set(top, (u, i + 1));
            assert(stack@ =~= s0.drop_last().push((u, (i + 1) as usize)));
            if !visited[v] {
                proof {
                    lemma_unset(v0, v as int);
                }
                visited.set(v, true);
                stack.push((v, 0));
            }
        } else {
            stack.pop();
            assert(stack@ =~= s0.drop_last());
            post.push(u);
        }
    }
    let mut r: Vec<usize> = Vec::new();
    let mut j: usize = post.len();
    while j > 0
        invariant
            j <= post.len(),
            r.len() == post.len() - j,
            forall|m: int| 0 <= m < r.len() ==> r@[m] == post@[post.len() - 1 - m],
        decreases j,
    {
        j = j - 1;
        r.push(post[j]);
    }
    assert(r@ =~= post@.reverse());
    r
}

/// A path extended by an edge.
proof fn lemma_extend(g: CfgV, a: int, u: int, v: int)
    requires
        g.avoids(a, u),
        g.edge(u, v),
        v != a,
        v <= usize::MAX,
    ensures
        g.avoids(a, v),
{
    let p = choose|p: Seq<usize>| g.leads(p, a, u);
    let q = p.push(v as usize);
    assert(g.leads(q, a, v)) by {
        assert forall|i: int| 0 <= i < q.len() - 1 implies g.edge(
            #[trigger] q[i] as int,
            q[i + 1] as int,
        ) by {
            if i < p.len() - 1 {
                assert(q[i] == p[i] && q[i + 1] == p[i + 1]);
            } else {
                assert(q[i] == p.last());
            }
        }
        assert forall|i: int| 0 <= i < q.len() implies #[trigger] q[i] != a by {
            if i < p.len() {
                assert(q[i] == p[i]);
            }
        }
    }
}

/// A set of blocks that holds the entry and what follows its members, but for `a`,
/// holds all blocks reached without passing through `a`.
proof fn lemma_closed(g: CfgV, a: int, seen: Seq<bool>, p: Seq<usize>, b: int, k: int)
    requires
        g.wf(),
        seen.len() == g.n(),
        a != 0 ==> seen[0],
        forall|u: int, v: int|
            0 <= u < g.n() && 0 <= v < g.n() && seen[u] && v != a && #[trigger] g.edge(u, v)
                ==> seen[v],
        g.leads(p, a, b),
        0 <= k < p.len(),
    ensures
        p[k] < g.n(),
        seen[p[k] as int],
    decreases k,
{
    if k == 0 {
        assert(p[0] != a);
    } else {
        lemma_closed(g, a, seen, p, b, k - 1);
        assert(g.edge(p[k - 1] as int, p[k - 1 + 1] as int));
        assert(p[k] != a);
    }
}

/// Which blocks are reached from the entry without passing through `a`.
fn reach_avoiding(cfg: &Cfg, a: usize) -> (r: Vec<bool>)
    requires
        cfg@.wf(),
    ensures
        r.len() == cfg@.n(),
        forall|b: int| 0 <= b < r.len() ==> #[trigger] r@[b] == cfg@.avoids(a as int, b),
{
    let n: usize = cfg.succs.len();
    let ghost g = cfg@;
    let mut seen: Vec<bool> = Vec::new();
    let mut k: usize = 0;
    while k < n
        invariant
            k <= n,
            seen.len() == k,
            forall|i: int| 0 <= i < k ==> seen@[i] == (i == 0 && a != 0),
        decreases n - k,
    {
        seen.push(k == 0 && a != 0);
        k = k + 1;
    }
    let mut work: Vec<usize> = Vec::new();
    if a != 0 {
        work.push(0);
        proof {
            assert(g.leads(seq![0usize], a as int, 0));
        }
    }
    while work.len() > 0
        invariant
            g == cfg@,
            g.wf(),
            n == g.n(),
            n == cfg.succs.len(),
            seen.len() == n,
            a != 0 ==> seen@[0],
            forall|j: int| 0 <= j < work.len() ==> (#[trigger] work@[j]) < n && seen@[work@[j] as int],
            forall|b: int| 0 <= b < n && seen@[b] ==> #[trigger] g.avoids(a as int, b),
            forall|u: int, v: int|
                0 <= u < n && 0 <= v < n && seen@[u] && !work@.contains(u as usize) && v != a
                    && #[trigger] g.edge(u, v) ==> seen@[v],
        decreases unset(seen@), work.len(),
    {
        let ghost work0 = work@;
        let ghost seen0 = seen@;
        let u: usize = work.pop().unwrap();
        assert(work0.last() == u);
        assert(work@ =~= work0.drop_last());
        assert(seen@[u as int]) by {
            assert(work0[work0.len() - 1] == u);
        }
        assert(g.succs[u as int] == cfg.succs@[u as int]@);
        let ghost work1 = work@;
        let mut i: usize = 0;
        while i < cfg.succs[u].len()
            invariant
                g == cfg@,
                g.wf(),
                n == g.n(),
                n == cfg.succs.len(),
                u < n,
                g.succs[u as int] == cfg.succs@[u as int]@,
                i <= cfg.succs@[u as int].len(),
                seen.len() == n,
                seen0.len() == n,
                seen@[u as int],
                a != 0 ==> seen@[0],
                g.avoids(a as int, u as int),
                forall|j: int|
                    0 <= j < work.len() ==> (#[trigger] work@[j]) < n && seen@[work@[j] as int],
                forall|b: int| 0 <= b < n && seen@[b] ==> #[trigger] g.avoids(a as int, b),
                forall|b: int| 0 <= b < n && seen0[b] ==> seen@[b],
                forall|b: int|
                    0 <= b < n && seen@[b] && !seen0[b] ==> #[trigger] work@.contains(b as usize),
                forall|b: usize| work1.contains(b) ==> #[trigger] work@.contains(b),
                forall|m: int|
                    0 <= m < i ==> g.succs[u as int][m] == a || seen@[#[trigger] g.succs[u as int][m]
                        as int],
                unset(seen@) < unset(seen0) || (seen@ == seen0 && work@ == work1),
            decreases cfg.succs@[u as int].len() - i,
        {
            let v: usize = cfg.succs[u][i];
            assert(v == g.succs[u as int][i as int]);
            if v != a && !seen[v] {
                proof {
                    assert(g.edge(u as int, v as int)) by {
                        assert(g.succs[u as int][i as int] == v);
                    }
                    lemma_extend(g, a as int, u as int, v as int);
                    lemma_unset(seen@, v as int);
                }
                let ghost w2 = work@;
                seen.set(v, true);
                work.push(v);
                proof {
                    assert(work@[work.len() - 1] == v);
                    assert forall|b: usize| w2.contains(b) implies #[trigger] work@.contains(b) by {
                        let j = choose|j: int| 0 <= j < w2.len() && w2[j] == b;
                        assert(work@[j] == b);
                    }
                    assert forall|b: usize| work1.contains(b) implies #[trigger] work@.contains(
                        b,
                    ) by {
                        assert(w2.contains(b));
                    }
                }
            }
            i = i + 1;
        }
        proof {
            assert forall|x: int, v: int|
                0 <= x < n && 0 <= v < n && seen@[x] && !work@.contains(x as usize) && v != a
                    && #[trigger] g.edge(x, v) implies seen@[v] by {
                if x == u {
                    let m = choose|m: int|
                        0 <= m < g.succs[u as int].len() && g.succs[u as int][m] == v as usize;
                    assert(seen@[g.succs[u as int][m] as int]);
                } else if seen0[x] {
                    if work0.contains(x as usize) {
                        let j = choose|j: int| 0 <= j < work0.len() && work0[j] == x as usize;
                        assert(j < work0.len() - 1);
                        assert(work1[j] == x as usize);
                        assert(work1.contains(x as usize));
                    }
                }
            }
        }
    }
    proof {
        assert forall|b: int| 0 <= b < seen.len() implies #[trigger] seen@[b] == g.avoids(
            a as int,
            b,
        ) by {
            if g.avoids(a as int, b) {
                let p = choose|p: Seq<usize>| g.leads(p, a as int, b);
                lemma_closed(g, a as int, seen@, p, b, p.len() - 1);
            }
        }
    }
    seen
}

/// Whether `v` is on the stack of a search.
pub open spec fn on_stack(stack: Seq<(usize, usize)>, v: int) -> bool {
    exists|j: int| 0 <= j < stack.len() && (#[trigger] stack[j]).0 == v
}

/// Whether `v` was finished by a search.
pub open spec fn finished(post: Seq<usize>, v: int) -> bool {
    exists|j: int| 0 <= j < post.len() && #[trigger] post[j] == v
}

/// Whether the finished block number `k` was found from a block that finishes later.
pub open spec fn has_parent(
    g: CfgV,
    stack: Seq<(usize, usize)>,
    post: Seq<usize>,
    k: int,
) -> bool {
    exists|p: int|
        #[trigger] g.edge(p, post[k] as int) && (on_stack(stack, p) || exists|j: int|
            k < j < post.len() && #[trigger] post[j] == p)
}

/// What holds throughout a search: it has visited the blocks on its stack, which form a
/// path from the entry, and those it has finished.
pub open spec fn searching(
    g: CfgV,
    visited: Seq<bool>,
    stack: Seq<(usize, usize)>,
    post: Seq<usize>,
) -> bool {
    &&& visited.len() == g.n()
    &&& forall|j: int| 0 <= j < stack.len() ==> (#[trigger] stack[j]).0 < g.n()
    &&& forall|j: int| 0 <= j < post.len() ==> #[trigger] post[j] < g.n()
    &&& forall|v: int|
        0 <= v < g.n() ==> (#[trigger] visited[v] <==> (on_stack(stack, v) || finished(post, v)))
    &&& forall|j: int, k: int|
        #![trigger stack[j], stack[k]]
        0 <= j < k < stack.len() ==> stack[j].0 != stack[k].0
    &&& forall|j: int, k: int|
        #![trigger post[j], post[k]]
        0 <= j < k < post.len() ==> post[j] != post[k]
    &&& forall|j: int, k: int|
        #![trigger stack[j], post[k]]
        0 <= j < stack.len() && 0 <= k < post.len() ==> stack[j].0 != post[k]
    &&& stack.len() > 0 ==> stack[0].0 == 0
    &&& stack.len() == 0 ==> post.len() > 0 && post.last() == 0
    &&& forall|j: int|
        0 < j < stack.len() ==> g.edge(stack[j - 1].0 as int, (#[trigger] stack[j]).0 as int)
    &&& forall|k: int|
        0 <= k < post.len() && post[k] != 0 ==> #[trigger] has_parent(g, stack, post, k)
    &&& forall|k: int, v: int|
        0 <= k < post.len() && #[trigger] g.edge(#[trigger] post[k] as int, v) ==> visited[v]
    &&& forall|j: int, m: int|
        #![trigger g.succs[stack[j].0 as int][m]]
        0 <= j < stack.len() && 0 <= m < stack[j].1 && m < g.succs[stack[j].0 as int].len()
            ==> visited[g.succs[stack[j].0 as int][m] as int]
}

/// What a finished search has found.
pub open spec fn searched(g: CfgV, post: Seq<usize>) -> bool {
    &&& post.len() > 0
    &&& post.last() == 0
    &&& forall|j: int| 0 <= j < post.len() ==> #[trigger] post[j] < g.n()
    &&& forall|j: int, k: int|
        #![trigger post[j], post[k]]
        0 <= j < k < post.len() ==> post[j] != post[k]
    &&& forall|k: int|
        0 <= k < post.len() && post[k] != 0 ==> #[trigger] has_parent(g, Seq::empty(), post, k)
    &&& forall|k: int, v: int|
        0 <= k < post.len() && #[trigger] g.edge(#[trigger] post[k] as int, v) ==> finished(post, v)
}

/// A step to a new block.
proof fn lemma_search_push(
    g: CfgV,
    visited: Seq<bool>,
    stack: Seq<(usize, usize)>,
    post: Seq<usize>,
)
    requires
        g.wf(),
        searching(g, visited, stack, post),
        stack.len() > 0,
        stack.last().1 < g.succs[stack.last().0 as int].len(),
        !visited[g.succs[stack.last().0 as int][stack.last().1 as int] as int],
    ensures
        ({
            let (u, i) = stack.last();
            let v = g.succs[u as int][i as int];
            searching(
                g,
                visited.update(v as int, true),
                stack.drop_last().push((u, (i + 1) as usize)).push((v, 0)),
                post,
            )
        }),
{
    let (u, i) = stack.last();
    let v = g.succs[u as int][i as int];
    let s2 = stack.drop_last().push((u, (i + 1) as usize)).push((v, 0usize));
    let w = visited.update(v as int, true);
    assert(v < g.n());
    assert(g.edge(u as int, v as int)) by {
        assert(g.succs[u as int][i as int] == v);
    }
    assert forall|x: int| 0 <= x < g.n() implies (#[trigger] w[x] <==> (on_stack(s2, x) || finished(
        post,
        x,
    ))) by {
        if x == v {
            assert(s2[s2.len() - 1].0 == v);
        }
        if on_stack(stack, x) {
            let j = choose|j: int| 0 <= j < stack.len() && (#[trigger] stack[j]).0 == x;
            assert(s2[j].0 == x);
        }
        if on_stack(s2, x) && x != v {
            let j = choose|j: int| 0 <= j < s2.len() && (#[trigger] s2[j]).0 == x;
            assert(stack[j].0 == x);
        }
    }
    assert forall|j: int, k: int|
        #![trigger s2[j], s2[k]]
        0 <= j < k < s2.len() implies s2[j].0 != s2[k].0 by {
        assert(stack[j].0 == s2[j].0);
        if k < stack.len() {
            assert(stack[k].0 == s2[k].0);
        } else {
            assert(on_stack(stack, stack[j].0 as int));
        }
    }
    assert forall|j: int, k: int|
        #![trigger s2[j], post[k]]
        0 <= j < s2.len() && 0 <= k < post.len() implies s2[j].0 != post[k] by {
        if j < stack.len() {
            assert(stack[j].0 == s2[j].0);
        } else {
            assert(finished(post, post[k] as int));
        }
    }
    assert(s2[0].0 == 0) by {
        assert(stack[0].0 == s2[0].0);
    }
    assert forall|j: int| 0 < j < s2.len() implies g.edge(
        s2[j - 1].0 as int,
        (#[trigger] s2[j]).0 as int,
    ) by {
        if j < stack.len() {
            assert(stack[j].0 == s2[j].0 && stack[j - 1].0 == s2[j - 1].0);
        }
    }
    assert forall|k: int| 0 <= k < post.len() && post[k] != 0 implies #[trigger] has_parent(
        g,
        s2,
        post,
        k,
    ) by {
        assert(has_parent(g, stack, post, k));
        let p = choose|p: int|
            #[trigger] g.edge(p, post[k] as int) && (on_stack(stack, p) || exists|j: int|
                k < j < post.len() && #[trigger] post[j] == p);
        if on_stack(stack, p) {
            let j = choose|j: int| 0 <= j < stack.len() && (#[trigger] stack[j]).0 == p;
            assert(s2[j].0 == p);
        }
        assert(g.edge(p, post[k] as int));
    }
    assert forall|j: int, m: int|
        #![trigger g.succs[s2[j].0 as int][m]]
        0 <= j < s2.len() && 0 <= m < s2[j].1 && m < g.succs[s2[j].0 as int].len() implies w[
        g.succs[s2[j].0 as int][m] as int] by {
        if j < stack.len() {
            assert(stack[j].0 == s2[j].0);
            if j == stack.len() - 1 && m == i {
            } else {
                assert(visited[g.succs[stack[j].0 as int][m] as int]);
            }
        }
    }
}

/// A step past an edge to a visited block.
proof fn lemma_search_skip(
    g: CfgV,
    visited: Seq<bool>,
    stack: Seq<(usize, usize)>,
    post: Seq<usize>,
)
    requires
        g.wf(),
        searching(g, visited, stack, post),
        stack.len() > 0,
        stack.last().1 < g.succs[stack.last().0 as int].len(),
        visited[g.succs[stack.last().0 as int][stack.last().1 as int] as int],
    ensures
        ({
            let (u, i) = stack.last();
            searching(g, visited, stack.drop_last().push((u, (i + 1) as usize)), post)
        }),
{
    let (u, i) = stack.last();
    let s2 = stack.drop_last().push((u, (i + 1) as usize));
    assert forall|x: int| 0 <= x < g.n() implies (#[trigger] visited[x] <==> (on_stack(s2, x)
        || finished(post, x))) by {
        if on_stack(stack, x) {
            let j = choose|j: int| 0 <= j < stack.len() && (#[trigger] stack[j]).0 == x;
            assert(s2[j].0 == x);
        }
        if on_stack(s2, x) {
            let j = choose|j: int| 0 <= j < s2.len() && (#[trigger] s2[j]).0 == x;
            assert(stack[j].0 == x);
        }
    }
    assert forall|j: int, k: int|
        #![trigger s2[j], s2[k]]
        0 <= j < k < s2.len() implies s2[j].0 != s2[k].0 by {
        assert(stack[j].0 == s2[j].0 && stack[k].0 == s2[k].0);
    }
    assert forall|j: int, k: int|
        #![trigger s2[j], post[k]]
        0 <= j < s2.len() && 0 <= k < post.len() implies s2[j].0 != post[k] by {
        assert(stack[j].0 == s2[j].0);
    }
    assert(s2[0].0 == 0) by {
        assert(stack[0].0 == s2[0].0);
    }
    assert forall|j: int| 0 < j < s2.len() implies g.edge(
        s2[j - 1].0 as int,
        (#[trigger] s2[j]).0 as int,
    ) by {
        assert(stack[j].0 == s2[j].0 && stack[j - 1].0 == s2[j - 1].0);
    }
    assert forall|k: int| 0 <= k < post.len() && post[k] != 0 implies #[trigger] has_parent(
        g,
        s2,
        post,
        k,
    ) by {
        assert(has_parent(g, stack, post, k));
        let p = choose|p: int|
            #[trigger] g.edge(p, post[k] as int) && (on_stack(stack, p) || exists|j: int|
                k < j < post.len() && #[trigger] post[j] == p);
        if on_stack(stack, p) {
            let j = choose|j: int| 0 <= j < stack.len() && (#[trigger] stack[j]).0 == p;
            assert(s2[j].0 == p);
        }
        assert(g.edge(p, post[k] as int));
    }
    assert forall|j: int, m: int|
        #![trigger g.succs[s2[j].0 as int][m]]
        0 <= j < s2.len() && 0 <= m < s2[j].1 && m < g.succs[s2[j].0 as int].len() implies visited[
        g.succs[s2[j].0 as int][m] as int] by {
        assert(stack[j].0 == s2[j].0);
        if j == stack.len() - 1 && m == i {
        } else {
            assert(visited[g.succs[stack[j].0 as int][m] as int]);
        }
    }
}

/// A step that finishes a block.
proof fn lemma_search_pop(
    g: CfgV,
    visited: Seq<bool>,
    stack: Seq<(usize, usize)>,
    post: Seq<usize>,
)
    requires
        g.wf(),
        searching(g, visited, stack, post),
        stack.len() > 0,
        stack.last().1 >= g.succs[stack.last().0 as int].len(),
    ensures
        searching(g, visited, stack.drop_last(), post.push(stack.last().0)),
{
    let (u, i) = stack.last();
    let s2 = stack.drop_last();
    let q = post.push(u);
    assert forall|x: int| 0 <= x < g.n() implies (#[trigger] visited[x] <==> (on_stack(s2, x)
        || finished(q, x))) by {
        if on_stack(stack, x) {
            let j = choose|j: int| 0 <= j < stack.len() && (#[trigger] stack[j]).0 == x;
            if j < stack.len() - 1 {
                assert(s2[j].0 == x);
            } else {
                assert(q[q.len() - 1] == x);
            }
        }
        if finished(post, x) {
            let j = choose|j: int| 0 <= j < post.len() && #[trigger] post[j] == x;
            assert(q[j] == x);
        }
        if on_stack(s2, x) {
            let j = choose|j: int| 0 <= j < s2.len() && (#[trigger] s2[j]).0 == x;
            assert(stack[j].0 == x);
        }
        if finished(q, x) {
            let j = choose|j: int| 0 <= j < q.len() && #[trigger] q[j] == x;
            if j < post.len() {
                assert(post[j] == x);
            } else {
                assert(stack[stack.len() - 1].0 == x);
            }
        }
    }
    assert forall|j: int, k: int|
        #![trigger s2[j], s2[k]]
        0 <= j < k < s2.len() implies s2[j].0 != s2[k].0 by {
        assert(stack[j] == s2[j] && stack[k] == s2[k]);
    }
    assert forall|j: int, k: int|
        #![trigger q[j], q[k]]
        0 <= j < k < q.len() implies q[j] != q[k] by {
        assert(post[j] == q[j]);
        if k < post.len() {
            assert(post[k] == q[k]);
        } else {
            assert(stack[stack.len() - 1].0 == q[k]);
        }
    }
    assert forall|j: int, k: int|
        #![trigger s2[j], q[k]]
        0 <= j < s2.len() && 0 <= k < q.len() implies s2[j].0 != q[k] by {
        assert(stack[j] == s2[j]);
        if k < post.len() {
            assert(post[k] == q[k]);
        } else {
            assert(stack[stack.len() - 1].0 == q[k]);
        }
    }
    assert forall|j: int| 0 < j < s2.len() implies g.edge(
        s2[j - 1].0 as int,
        (#[trigger] s2[j]).0 as int,
    ) by {
        assert(stack[j] == s2[j] && stack[j - 1] == s2[j - 1]);
    }
    assert forall|k: int| 0 <= k < q.len() && q[k] != 0 implies #[trigger] has_parent(
        g,
        s2,
        q,
        k,
    ) by {
        if k < post.len() {
            assert(has_parent(g, stack, post, k));
            assert(q[k] == post[k]);
            let p = choose|p: int|
                #[trigger] g.edge(p, post[k] as int) && (on_stack(stack, p) || exists|j: int|
                    k < j < post.len() && #[trigger] post[j] == p);
            if on_stack(stack, p) {
                let j = choose|j: int| 0 <= j < stack.len() && (#[trigger] stack[j]).0 == p;
                if j < stack.len() - 1 {
                    assert(s2[j].0 == p);
                } else {
                    assert(q[q.len() - 1] == p);
                }
            } else {
                let j = choose|j: int| k < j < post.len() && #[trigger] post[j] == p;
                assert(q[j] == p);
            }
            assert(g.edge(p, q[k] as int));
        } else {
            let j = stack.len() - 1;
            assert(stack[j].0 == q[k]);
            assert(j > 0);
            assert(g.edge(stack[j - 1].0 as int, stack[j].0 as int));
            assert(s2[j - 1] == stack[j - 1]);
            assert(on_stack(s2, stack[j - 1].0 as int));
        }
    }
    assert forall|k: int, v: int|
        0 <= k < q.len() && #[trigger] g.edge(#[trigger] q[k] as int, v) implies visited[v] by {
        if k < post.len() {
            assert(post[k] == q[k]);
        } else {
            let m = choose|m: int|
                0 <= m < g.succs[u as int].len() && g.succs[u as int][m] == v as usize;
            let j = stack.len() - 1;
            assert(visited[g.succs[stack[j].0 as int][m] as int]);
        }
    }
    assert forall|j: int, m: int|
        #![trigger g.succs[s2[j].0 as int][m]]
        0 <= j < s2.len() && 0 <= m < s2[j].1 && m < g.succs[s2[j].0 as int].len() implies visited[
        g.succs[s2[j].0 as int][m] as int] by {
        assert(stack[j] == s2[j]);
        assert(visited[g.succs[stack[j].0 as int][m] as int]);
    }
    if s2.len() == 0 {
        assert(stack[0].0 == 0);
    }
}

/// A search finds what [`searched`] says.
proof fn lemma_dfs(
    g: CfgV,
    visited: Seq<bool>,
    stack: Seq<(usize, usize)>,
    post: Seq<usize>,
)
    requires
        g.wf(),
        searching(g, visited, stack, post),
    ensures
        searched(g, dfs(g, visited, stack, post)),
    decreases
            unset(visited),
            stack.len(),
            (if stack.len() > 0 && stack.last().0 < g.n() && stack.last().1
                < g.succs[stack.last().0 as int].len() {
                g.succs[stack.last().0 as int].len() - stack.last().1
            } else {
                0
            }),
{
    if stack.len() == 0 {
        assert(stack =~= Seq::<(usize, usize)>::empty());
        assert forall|k: int, v: int|
            0 <= k < post.len() && #[trigger] g.edge(#[trigger] post[k] as int, v) implies finished(
            post,
            v,
        ) by {
            assert(visited[v]);
        }
    } else {
        let (u, i) = stack.last();
        assert(stack[stack.len() - 1].0 == u);
        if i < g.succs[u as int].len() {
            let v = g.succs[u as int][i as int];
            assert(v < g.n());
            if !visited[v as int] {
                lemma_search_push(g, visited, stack, post);
                lemma_unset(visited, v as int);
                lemma_dfs(
                    g,
                    visited.update(v as int, true),
                    stack.drop_last().push((u, (i + 1) as usize)).push((v, 0usize)),
                    post,
                );
            } else {
                lemma_search_skip(g, visited, stack, post);
                lemma_dfs(g, visited, stack.drop_last().push((u, (i + 1) as usize)), post);
            }
        } else {
            lemma_search_pop(g, visited, stack, post);
            lemma_dfs(g, visited, stack.drop_last(), post.push(u));
        }
    }
}

/// Reverse postorder begins with the entry, lists no block twice, lists every block
/// but the entry after one of its predecessors, and with a block all that follows it.
pub proof fn law_rpo(g: CfgV)
    requires
        g.wf(),
    ensures
        g.rpo().len() > 0,
        g.rpo()[0] == 0,
        forall|i: int| 0 <= i < g.rpo().len() ==> #[trigger] g.rpo()[i] < g.n(),
        forall|i: int, j: int|
            #![trigger g.rpo()[i], g.rpo()[j]]
            0 <= i < j < g.rpo().len() ==> g.rpo()[i] != g.rpo()[j],
        forall|k: int|
            0 < k < g.rpo().len() ==> exists|j: int|
                0 <= j < k && g.edge(#[trigger] g.rpo()[j] as int, #[trigger] g.rpo()[k] as int),
        forall|k: int, v: int|
            0 <= k < g.rpo().len() && #[trigger] g.edge(#[trigger] g.rpo()[k] as int, v)
                ==> g.rpo().contains(v as usize),
{
    reveal(CfgV::rpo);
    let visited = entry_only(g.n());
    let stack = seq![(0usize, 0usize)];
    let none = Seq::<usize>::empty();
    assert(searching(g, visited, stack, none)) by {
        assert(stack[0].0 == 0);
        assert forall|v: int| 0 <= v < g.n() implies (#[trigger] visited[v] <==> (on_stack(
            stack,
            v,
        ) || finished(none, v))) by {
            if v == 0 {
                assert(stack[0].0 == v);
            }
        }
    }
    lemma_dfs(g, visited, stack, none);
    let post = dfs(g, visited, stack, none);
    let order = g.rpo();
    let last = post.len() - 1;
    assert(order =~= post.reverse());
    assert(order[0] == post[last]);
    assert forall|i: int| 0 <= i < order.len() implies #[trigger] order[i] < g.n() by {
        assert(order[i] == post[last - i]);
    }
    assert forall|i: int, j: int|
        #![trigger order[i], order[j]]
        0 <= i < j < order.len() implies order[i] != order[j] by {
        assert(order[i] == post[last - i] && order[j] == post[last - j]);
    }
    assert forall|k: int| 0 < k < order.len() implies exists|j: int|
        0 <= j < k && g.edge(#[trigger] order[j] as int, #[trigger] order[k] as int) by {
        let m = last - k;
        assert(order[k] == post[m]);
        assert(post[m] != post[last]);
        assert(has_parent(g, Seq::empty(), post, m));
        let p = choose|p: int|
            #[trigger] g.edge(p, post[m] as int) && (on_stack(Seq::empty(), p) || exists|j: int|
                m < j < post.len() && #[trigger] post[j] == p);
        let j = choose|j: int| m < j < post.len() && #[trigger] post[j] == p;
        assert(order[last - j] == post[j]);
        assert(g.edge(order[last - j] as int, order[k] as int));
    }
    assert forall|k: int, v: int|
        0 <= k < order.len() && #[trigger] g.edge(#[trigger] order[k] as int, v) implies order.contains(
        v as usize,
    ) by {
        assert(order[k] == post[last - k]);
        assert(finished(post, v));
        let j = choose|j: int| 0 <= j < post.len() && #[trigger] post[j] == v;
        assert(order[last - j] == post[j]);
    }
}

/// Reverse postorder lists exactly the blocks that can be reached.
pub proof fn law_rpo_reaches(g: CfgV, b: int)
    requires
        g.wf(),
        0 <= b < g.n(),
    ensures
        g.rpo().contains(b as usize) == g.reachable(b),
{
    law_rpo(g);
    let order = g.rpo();
    if order.contains(b as usize) {
        let k = choose|k: int| 0 <= k < order.len() && order[k] == b as usize;
        let ks = lemma_tree_path(g, k);
        let p = along(order, ks);
        lemma_tree_is_path(g, ks);
        assert(g.leads(p, -1, b));
    }
    if g.reachable(b) {
        let none: int = -1;
        let p = choose|p: Seq<usize>| g.leads(p, none, b);
        lemma_listed(g, p, p.len() - 1);
    }
}

/// Every block of a path is listed.
proof fn lemma_listed(g: CfgV, p: Seq<usize>, k: int)
    requires
        g.wf(),
        g.is_path(p),
        0 <= k < p.len(),
    ensures
        g.rpo().contains(p[k]),
    decreases k,
{
    law_rpo(g);
    if k == 0 {
        assert(g.rpo()[0] == p[0]);
    } else {
        lemma_listed(g, p, k - 1);
        assert(g.edge(p[k - 1] as int, p[k - 1 + 1] as int));
        let i = choose|i: int| 0 <= i < g.rpo().len() && g.rpo()[i] == p[k - 1];
        assert(g.edge(g.rpo()[i] as int, p[k] as int));
    }
}

/// The blocks at some positions of an order.
pub open spec fn along(order: Seq<usize>, ks: Seq<int>) -> Seq<usize> {
    Seq::new(ks.len(), |i: int| order[ks[i]])
}

/// Whether `ks` are growing positions from the entry on, each joined to the next by an
/// edge.
pub open spec fn is_tree(g: CfgV, ks: Seq<int>) -> bool {
    &&& ks.len() > 0
    &&& ks[0] == 0
    &&& forall|i: int| 0 <= i < ks.len() ==> 0 <= #[trigger] ks[i] < g.rpo().len()
    &&& forall|i: int, j: int|
        #![trigger ks[i], ks[j]]
        0 <= i < j < ks.len() ==> ks[i] < ks[j]
    &&& forall|i: int|
        0 <= i < ks.len() - 1 ==> g.edge(
            g.rpo()[#[trigger] ks[i]] as int,
            g.rpo()[ks[i + 1]] as int,
        )
}

/// The positions on the way to the block at position `k`.
proof fn lemma_tree_path(g: CfgV, k: int) -> (ks: Seq<int>)
    requires
        g.wf(),
        0 <= k < g.rpo().len(),
    ensures
        is_tree(g, ks),
        ks.last() == k,
    decreases k,
{
    law_rpo(g);
    if k == 0 {
        seq![0int]
    } else {
        let j = choose|j: int|
            0 <= j < k && g.edge(#[trigger] g.rpo()[j] as int, g.rpo()[k] as int);
        let ks = lemma_tree_path(g, j);
        let r = ks.push(k);
        assert forall|i: int| 0 <= i < r.len() implies 0 <= #[trigger] r[i] < g.rpo().len() by {
            if i < ks.len() {
                assert(r[i] == ks[i]);
            }
        }
        assert forall|i: int, m: int|
            #![trigger r[i], r[m]]
            0 <= i < m < r.len() implies r[i] < r[m] by {
            assert(r[i] == ks[i]);
            if m < ks.len() {
                assert(r[m] == ks[m]);
            } else if i < ks.len() - 1 {
                assert(ks[i] < ks[ks.len() - 1]);
            }
        }
        assert forall|i: int| 0 <= i < r.len() - 1 implies g.edge(
            g.rpo()[#[trigger] r[i]] as int,
            g.rpo()[r[i + 1]] as int,
        ) by {
            assert(r[i] == ks[i]);
            if i < ks.len() - 1 {
                assert(r[i + 1] == ks[i + 1]);
            }
        }
        r
    }
}

/// Such positions give a path.
proof fn lemma_tree_is_path(g: CfgV, ks: Seq<int>)
    requires
        g.wf(),
        is_tree(g, ks),
    ensures
        g.is_path(along(g.rpo(), ks)),
{
    law_rpo(g);
    let p = along(g.rpo(), ks);
    assert forall|i: int| 0 <= i < p.len() - 1 implies g.edge(
        #[trigger] p[i] as int,
        p[i + 1] as int,
    ) by {
        assert(p[i] == g.rpo()[ks[i]] && p[i + 1] == g.rpo()[ks[i + 1]]);
    }
}

/// Whether `pos` gives the position of every block in a reverse postorder of all
/// blocks.
pub open spec fn is_positions(g: CfgV, pos: Seq<usize>) -> bool {
    &&& pos.len() == g.n()
    &&& g.rpo().len() == g.n()
    &&& forall|i: int| 0 <= i < g.n() ==> pos[#[trigger] g.rpo()[i] as int] == i
    &&& forall|b: int|
        0 <= b < g.n() ==> (#[trigger] pos[b]) < g.n() && g.rpo()[pos[b] as int] == b
}

/// Every dominator of a block but itself comes before it.
pub proof fn law_dominators_come_first(g: CfgV, pos: Seq<usize>, a: int, b: int)
    requires
        g.wf(),
        is_positions(g, pos),
        0 <= a < g.n(),
        0 <= b < g.n(),
        g.dominates(a, b),
        a != b,
    ensures
        pos[a] < pos[b],
{
    let ks = lemma_tree_path(g, pos[b] as int);
    lemma_tree_is_path(g, ks);
    let p = along(g.rpo(), ks);
    assert(p.last() == b);
    if forall|i: int| 0 <= i < p.len() ==> #[trigger] p[i] != a {
        assert(g.leads(p, a, b));
    }
    let i = choose|i: int| 0 <= i < p.len() && #[trigger] p[i] == a;
    assert(p[i] == g.rpo()[ks[i]]);
    assert(pos[g.rpo()[ks[i]] as int] == ks[i]);
    assert(i != p.len() - 1);
    assert(ks[i] < ks[ks.len() - 1]);
}

/// Of two dominators of a block the one that comes first dominates the other.
pub proof fn law_dominators_form_a_chain(g: CfgV, pos: Seq<usize>, a: int, d: int, b: int)
    requires
        g.wf(),
        is_positions(g, pos),
        0 <= a < g.n(),
        0 <= d < g.n(),
        0 <= b < g.n(),
        g.dominates(a, b),
        g.dominates(d, b),
        pos[a] < pos[d],
    ensures
        g.dominates(a, d),
{
    if g.avoids(a, d) {
        let q = choose|q: Seq<usize>| g.leads(q, a, d);
        let ks = lemma_tree_path(g, pos[b] as int);
        lemma_tree_is_path(g, ks);
        let p = along(g.rpo(), ks);
        assert(p.last() == b);
        if forall|i: int| 0 <= i < p.len() ==> #[trigger] p[i] != d {
            assert(g.leads(p, d, b));
        }
        let i = choose|i: int| 0 <= i < p.len() && #[trigger] p[i] == d;
        assert(p[i] == g.rpo()[ks[i]]);
        assert(pos[g.rpo()[ks[i]] as int] == ks[i]);
        let r = q + p.subrange(i + 1, p.len() as int);
        assert forall|m: int| 0 <= m < r.len() - 1 implies g.edge(
            #[trigger] r[m] as int,
            r[m + 1] as int,
        ) by {
            if m < q.len() - 1 {
                assert(r[m] == q[m] && r[m + 1] == q[m + 1]);
            } else {
                let x = i + (m - (q.len() - 1));
                assert(r[m + 1] == p[x + 1]);
                assert(r[m] == p[x]);
                assert(g.edge(p[x] as int, p[x + 1] as int));
            }
        }
        assert forall|m: int| 0 <= m < r.len() implies #[trigger] r[m] != a by {
            if m < q.len() {
                assert(r[m] == q[m]);
            } else {
                let x = i + 1 + (m - q.len());
                assert(r[m] == p[x]);
                assert(p[x] == g.rpo()[ks[x]]);
                assert(pos[g.rpo()[ks[x]] as int] == ks[x]);
                assert(ks[i] < ks[x]);
            }
        }
        assert(r.last() == b) by {
            if i + 1 < p.len() {
                assert(r[r.len() - 1] == p[p.len() - 1]);
            } else {
                assert(r =~= q);
            }
        }
        assert(r[0] == q[0]);
        assert(g.leads(r, a, b));
    }
}

/// Dominance is transitive.
pub proof fn law_dominance_is_transitive(g: CfgV, a: int, d: int, b: int)
    requires
        g.dominates(a, d),
        g.dominates(d, b),
    ensures
        g.dominates(a, b),
{
    if g.avoids(a, b) {
        let p = choose|p: Seq<usize>| g.leads(p, a, b);
        if forall|i: int| 0 <= i < p.len() ==> #[trigger] p[i] != d {
            assert(g.leads(p, d, b));
        }
        let i = choose|i: int| 0 <= i < p.len() && #[trigger] p[i] == d;
        let q = p.take(i + 1);
        assert forall|m: int| 0 <= m < q.len() - 1 implies g.edge(
            #[trigger] q[m] as int,
            q[m + 1] as int,
        ) by {
            assert(q[m] == p[m] && q[m + 1] == p[m + 1]);
        }
        assert forall|m: int| 0 <= m < q.len() implies #[trigger] q[m] != a by {
            assert(q[m] == p[m]);
        }
        assert(q.last() == d);
        assert(q[0] == p[0]);
        assert(g.leads(q, a, d));
    }
}

/// Every block dominates itself, and the entry dominates every block.
pub proof fn law_dominance_is_reflexive(g: CfgV, b: int)
    ensures
        g.dominates(b, b),
        g.dominates(0, b),
{
    if g.avoids(b, b) {
        let p = choose|p: Seq<usize>| g.leads(p, b, b);
        assert(p[p.len() - 1] != b);
    }
    if g.avoids(0, b) {
        let p = choose|p: Seq<usize>| g.leads(p, 0, b);
        assert(p[0] != 0);
    }
}

/// Whether `d` is the immediate dominator of `b`: the last of its other dominators.
pub open spec fn is_idom(g: CfgV, pos: Seq<usize>, d: int, b: int) -> bool {
    &&& 0 <= d < g.n()
    &&& d != b
    &&& g.dominates(d, b)
    &&& forall|a: int|
        0 <= a < g.n() && a != b && #[trigger] g.dominates(a, b) ==> pos[a] <= pos[d]
}

/// Whether `idom` gives the immediate dominator of every block; that of the entry is
/// itself.
pub open spec fn are_idoms(g: CfgV, pos: Seq<usize>, idom: Seq<usize>) -> bool {
    &&& idom.len() == g.n()
    &&& idom[0] == 0
    &&& forall|b: int| 0 < b < g.n() ==> is_idom(g, pos, #[trigger] idom[b] as int, b)
}

/// All other dominators of a block dominate its immediate dominator.
pub proof fn law_immediate_dominator(g: CfgV, pos: Seq<usize>, d: int, a: int, b: int)
    requires
        g.wf(),
        is_positions(g, pos),
        0 <= b < g.n(),
        is_idom(g, pos, d, b),
        0 <= a < g.n(),
        a != b,
        g.dominates(a, b),
    ensures
        g.dominates(a, d),
{
    if pos[a] < pos[d] {
        law_dominators_form_a_chain(g, pos, a, d, b);
    } else {
        assert(g.rpo()[pos[a] as int] == g.rpo()[pos[d] as int]);
        law_dominance_is_reflexive(g, d);
    }
}

/// A list without repetitions of all numbers below `n` holds each of them.
proof fn lemma_all_listed(order: Seq<usize>, n: int, b: int)
    requires
        order.len() == n,
        0 <= b < n <= usize::MAX,
        forall|i: int| 0 <= i < n ==> #[trigger] order[i] < n,
        forall|i: int, j: int|
            #![trigger order[i], order[j]]
            0 <= i < j < n ==> order[i] != order[j],
    ensures
        order.contains(b as usize),
{
    let ints = Seq::new(n as nat, |i: int| order[i] as int);
    assert(ints.no_duplicates()) by {
        assert forall|i: int, j: int| 0 <= i < ints.len() && 0 <= j < ints.len() && i != j implies ints[i]
            != ints[j] by {
            if i < j {
                assert(order[i] != order[j]);
            } else {
                assert(order[j] != order[i]);
            }
        }
    }
    let s = ints.to_set();
    let all = vstd::set_lib::set_int_range(0, n);
    ints.unique_seq_to_set();
    vstd::set_lib::lemma_int_range(0, n);
    assert(s.subset_of(all)) by {
        assert forall|x: int| s.contains(x) implies all.contains(x) by {
            let i = choose|i: int| 0 <= i < ints.len() && ints[i] == x;
            assert(order[i] < n);
        }
    }
    vstd::set_lib::lemma_subset_equality(s, all);
    assert(s.contains(b));
    let i = choose|i: int| 0 <= i < ints.len() && ints[i] == b;
    assert(order[i] == b as usize);
}

/// The position of every block, where the order lists all of them.
pub fn positions(cfg: &Cfg, order: &Vec<usize>) -> (r: Vec<usize>)
    requires
        cfg@.wf(),
        order@ == cfg@.rpo(),
        order.len() == cfg@.n(),
    ensures
        is_positions(cfg@, r@),
{
    let n: usize = cfg.succs.len();
    let ghost g = cfg@;
    proof {
        law_rpo(g);
    }
    let mut pos: Vec<usize> = Vec::new();
    let mut k: usize = 0;
    while k < n
        invariant
            k <= n,
            pos.len() == k,
        decreases n - k,
    {
        pos.push(0);
        k = k + 1;
    }
    let mut p: usize = 0;
    while p < n
        invariant
            p <= n,
            n == g.n(),
            g == cfg@,
            pos.len() == n,
            order@ == g.rpo(),
            order.len() == n,
            forall|i: int| 0 <= i < n ==> #[trigger] order@[i] < n,
            forall|i: int, j: int|
                #![trigger order@[i], order@[j]]
                0 <= i < j < n ==> order@[i] != order@[j],
            forall|i: int| 0 <= i < p ==> pos@[#[trigger] order@[i] as int] == i,
        decreases n - p,
    {
        let b: usize = order[p];
        pos.set(b, p);
        assert forall|i: int| 0 <= i < p + 1 implies pos@[#[trigger] order@[i] as int] == i by {
            if i < p {
                assert(order@[i] != order@[p as int]);
            }
        }
        p = p + 1;
    }
    proof {
        assert forall|b: int| 0 <= b < g.n() implies (#[trigger] pos@[b]) < g.n()
            && g.rpo()[pos@[b] as int] == b by {
            lemma_all_listed(order@, n as int, b);
            let i = choose|i: int| 0 <= i < order@.len() && order@[i] == b as usize;
            assert(pos@[order@[i] as int] == i);
        }
    }
    pos
}

/// Whether `best` gives for every block but the entry another dominator, at or after
/// all of the first `a` blocks that dominate it.
spec fn best_of(g: CfgV, pos: Seq<usize>, best: Seq<usize>, a: int) -> bool {
    &&& best.len() == g.n()
    &&& best[0] == 0
    &&& forall|b: int|
        0 < b < g.n() ==> (#[trigger] best[b]) < g.n() && best[b] != b && g.dominates(
            best[b] as int,
            b,
        )
    &&& forall|b: int, x: int|
        0 < b < g.n() && 0 <= x < a && x != b && #[trigger] g.dominates(x, b) ==> pos[x]
            <= pos[best[b] as int]
}

/// Takes `a` for the blocks that it dominates where it comes after the best one so far.
fn take_better(cfg: &Cfg, pos: &Vec<usize>, best: &mut Vec<usize>, a: usize)
    requires
        cfg@.wf(),
        is_positions(cfg@, pos@),
        a < cfg@.n(),
        best_of(cfg@, pos@, old(best)@, a as int),
    ensures
        best_of(cfg@, pos@, final(best)@, a + 1),
{
    let n: usize = cfg.succs.len();
    let ghost g = cfg@;
    let free: Vec<bool> = reach_avoiding(cfg, a);
    let ghost best0 = best@;
    let mut b: usize = 1;
    while b < n
        invariant
            a < n,
            1 <= b,
            n == g.n(),
            g == cfg@,
            is_positions(g, pos@),
            free.len() == n,
            forall|x: int| 0 <= x < n ==> #[trigger] free@[x] == g.avoids(a as int, x),
            best0.len() == n,
            best.len() == n,
            best@[0] == 0,
            forall|x: int|
                0 < x < n ==> (#[trigger] best@[x]) < n && best@[x] != x && g.dominates(
                    best@[x] as int,
                    x,
                ),
            forall|x: int| b <= x < n ==> best@[x] == best0[x],
            forall|x: int| 0 < x < n ==> pos@[best0[x] as int] <= pos@[#[trigger] best@[x] as int],
            forall|x: int|
                0 < x < b && x < n && x != a && #[trigger] g.dominates(a as int, x)
                    ==> pos@[a as int] <= pos@[best@[x] as int],
        decreases n - b,
    {
        let ghost before = best@;
        if b != a && !free[b] && pos[a] > pos[best[b]] {
            best.set(b, a);
        }
        assert forall|x: int| 0 < x < n implies pos@[best0[x] as int] <= pos@[#[trigger] best@[x]
            as int] by {
            assert(pos@[best0[x] as int] <= pos@[before[x] as int]);
        }
        assert forall|x: int|
            0 < x < b + 1 && x < n && x != a && #[trigger] g.dominates(a as int, x) implies pos@[a as int]
            <= pos@[best@[x] as int] by {
            if x == b {
                assert(free@[b as int] == g.avoids(a as int, b as int));
            } else {
                assert(best@[x] == before[x]);
            }
        }
        b = b + 1;
    }
    assert forall|x: int, y: int|
        0 < x < n && 0 <= y < a + 1 && y != x && #[trigger] g.dominates(y, x) implies pos@[y]
        <= pos@[best@[x] as int] by {
        if y < a {
            assert(pos@[y] <= pos@[best0[x] as int]);
        }
    }
}

/// The immediate dominators of all blocks.
pub fn idoms(cfg: &Cfg, pos: &Vec<usize>) -> (r: Vec<usize>)
    requires
        cfg@.wf(),
        is_positions(cfg@, pos@),
    ensures
        are_idoms(cfg@, pos@, r@),
{
    let n: usize = cfg.succs.len();
    let ghost g = cfg@;
    let mut best: Vec<usize> = Vec::new();
    let mut k: usize = 0;
    while k < n
        invariant
            k <= n,
            best.len() == k,
            forall|b: int| 0 <= b < k ==> best@[b] == 0,
        decreases n - k,
    {
        best.push(0);
        k = k + 1;
    }
    proof {
        assert forall|b: int| 0 < b < n implies g.dominates(#[trigger] best@[b] as int, b) by {
            law_dominance_is_reflexive(g, b);
        }
    }
    let mut a: usize = 0;
    while a < n
        invariant
            a <= n,
            n == g.n(),
            n == cfg.succs.len(),
            g == cfg@,
            g.wf(),
            is_positions(g, pos@),
            best_of(g, pos@, best@, a as int),
        decreases n - a,
    {
        take_better(cfg, pos, &mut best, a);
        a = a + 1;
    }
    assert forall|b: int| 0 < b < g.n() implies is_idom(g, pos@, #[trigger] best@[b] as int, b) by {}
    best
}

/// Whether `a` dominates `b0`: it is met on the way from `b0` to the entry along
/// immediate dominators.
pub fn dominates(cfg: &Cfg, idom: &Vec<usize>, pos: &Vec<usize>, a: usize, b0: usize) -> (r: bool)
    requires
        cfg@.wf(),
        is_positions(cfg@, pos@),
        are_idoms(cfg@, pos@, idom@),
        a < cfg@.n(),
        b0 < cfg@.n(),
    ensures
        r == cfg@.dominates(a as int, b0 as int),
{
    let ghost g = cfg@;
    let mut b: usize = b0;
    proof {
        law_rpo(g);
        assert(pos@[g.rpo()[0] as int] == 0);
    }
    loop
        invariant
            g == cfg@,
            g.wf(),
            is_positions(g, pos@),
            are_idoms(g, pos@, idom@),
            a < g.n(),
            b < g.n(),
            b0 < g.n(),
            pos@[0] == 0,
            g.dominates(a as int, b0 as int) == g.dominates(a as int, b as int),
        decreases pos@[b as int],
    {
        if a == b {
            proof {
                law_dominance_is_reflexive(g, b as int);
            }
            return true;
        }
        if pos[b] == 0 {
            proof {
                assert(g.rpo()[pos@[b as int] as int] == g.rpo()[pos@[0] as int]);
                assert(g.leads(seq![0usize], a as int, 0));
            }
            return false;
        }
        let d: usize = idom[b];
        proof {
            assert(is_idom(g, pos@, idom@[b as int] as int, b as int));
            law_dominators_come_first(g, pos@, d as int, b as int);
            if g.dominates(a as int, b as int) {
                law_immediate_dominator(g, pos@, d as int, a as int, b as int);
            }
            if g.dominates(a as int, d as int) {
                law_dominance_is_transitive(g, a as int, d as int, b as int);
            }
        }
        b = d;
    }
}

} // verus!
