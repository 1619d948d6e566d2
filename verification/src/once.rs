//! Every block and every edge is emitted once.
//!
//! The walk follows the tree of immediate dominators: a merge is emitted after the
//! frame that is left to reach it, any other block at the one edge that goes forward to
//! it. So each block is met once, and with it each of its edges.

use vstd::prelude::*;
use crate::graph::{is_idom, law_dominators_come_first, law_rpo, CfgV};
use crate::reducible::{
    backs_dominate, lemma_backs, lemma_dominated, lemma_merges, lemma_sole_pred, lemma_two_forward,
    terms_match,
};
use crate::relooper::{and_next, no_frame, one, Event, Frame, PlanV, Term, Walk};

verus! {

/// How often an event occurs.
pub open spec fn times(evs: Seq<Event>, ev: Event) -> nat
    decreases evs.len(),
{
    if evs.len() == 0 {
        0
    } else {
        times(evs.drop_last(), ev) + if evs.last() == ev {
            1nat
        } else {
            0nat
        }
    }
}

/// Whether block `x` ends in a jump to block `t`.
pub open spec fn target(terms: Seq<Term>, x: int, t: int) -> bool {
    match terms[x] {
        Term::If { then_, else_ } => then_ == t || else_ == t,
        Term::Goto(to) => to == t,
        Term::Return => false,
    }
}

/// In how many ways block `x` jumps to block `t`: twice where both arms of a choice lead
/// there.
pub open spec fn arms(terms: Seq<Term>, x: int, t: int) -> nat {
    match terms[x] {
        Term::If { then_, else_ } => if then_ == t && else_ == t {
            2
        } else if then_ == t || else_ == t {
            1
        } else {
            0
        },
        Term::Goto(to) => if to == t {
            1
        } else {
            0
        },
        Term::Return => 0,
    }
}

/// Whether a block is listed more than once among the predecessors of another.
pub open spec fn twice(preds: Seq<usize>, x: int) -> bool {
    exists|i: int, j: int|
        0 <= i < j < preds.len() && #[trigger] preds[i] == x && #[trigger] preds[j] == x
}

/// Whether the blocks' jumps are the graph's edges, with an edge for each arm of a choice.
pub open spec fn terms_cover(g: CfgV, terms: Seq<Term>) -> bool {
    &&& terms_match(g, terms)
    &&& forall|x: int, t: int|
        0 <= x < g.n() && 0 <= t < g.n() && #[trigger] g.edge(x, t) ==> target(terms, x, t)
    &&& forall|x: int|
        0 <= x < g.n() ==> (#[trigger] terms[x] matches Term::If { then_, else_ } ==> then_ == else_
            ==> twice(g.preds[then_ as int], x))
}

/// What the walk's order rests on: the tree of immediate dominators, with the merges
/// listed at their dominators, and the other blocks behind a jump of theirs.
spec fn planted(p: PlanV, terms: Seq<Term>) -> bool {
    &&& p.wf()
    &&& terms.len() == p.n()
    &&& forall|b: int|
        0 < b < p.n() ==> #[trigger] p.idom[b] < p.n() && p.pos[p.idom[b] as int] < p.pos[b]
    &&& forall|c: int|
        #![trigger p.merge[c]]
        0 < c < p.n() && p.merge[c] ==> p.merges(p.idom[c] as int).contains(c as usize)
    &&& forall|c: int|
        #![trigger p.merge[c]]
        0 < c < p.n() && !p.merge[c] ==> target(terms, p.idom[c] as int, c)
    &&& forall|x: int, i: int|
        #![trigger p.merges(x)[i]]
        0 <= x < p.n() && 0 <= i < p.merges(x).len() ==> {
            let m = p.merges(x)[i];
            &&& 0 < m < p.n()
            &&& p.idom[m as int] == x
            &&& p.merge[m as int]
        }
    &&& forall|x: int, i: int, j: int|
        #![trigger p.merges(x)[i], p.merges(x)[j]]
        0 <= x < p.n() && 0 <= i < j < p.merges(x).len() ==> p.merges(x)[i] != p.merges(x)[j]
    &&& forall|x: int, t: int|
        0 <= x < p.n() && 0 <= t < p.n() && #[trigger] target(terms, x, t) && p.pos[x] < p.pos[t]
            && !p.merge[t] ==> t > 0 && p.idom[t] == x
    &&& forall|x: int|
        0 <= x < p.n() ==> match #[trigger] terms[x] {
            Term::If { then_, else_ } => {
                &&& then_ < p.n() && else_ < p.n()
                &&& then_ == else_ ==> p.pos[then_ as int] <= p.pos[x] || p.merge[then_ as int]
            },
            Term::Goto(t) => t < p.n(),
            Term::Return => true,
        }
}

/// The block immediately dominated by `x` on the way up from `b`.
spec fn hang(p: PlanV, x: int, b: int) -> Option<int>
    decreases p.pos[b],
{
    if !(0 < b < p.n()) {
        None
    } else if p.idom[b] == x {
        Some(b)
    } else if p.pos[p.idom[b] as int] < p.pos[b] {
        hang(p, x, p.idom[b] as int)
    } else {
        None
    }
}

/// Whether `b` is `x` or below it in the tree of immediate dominators.
spec fn over(p: PlanV, x: int, b: int) -> bool {
    b == x || hang(p, x, b) is Some
}

proof fn lemma_hang(p: PlanV, terms: Seq<Term>, x: int, b: int)
    requires
        planted(p, terms),
        0 <= b < p.n(),
        hang(p, x, b) is Some,
    ensures
        ({
            let c = hang(p, x, b)->Some_0;
            &&& 0 < c < p.n()
            &&& p.idom[c] == x
            &&& p.pos[x] < p.pos[b]
        }),
    decreases p.pos[b],
{
    if p.idom[b] != x {
        lemma_hang(p, terms, x, p.idom[b] as int);
    }
}

/// What is below a block hangs on it at its dominator.
proof fn lemma_over(p: PlanV, terms: Seq<Term>, c: int, b: int)
    requires
        planted(p, terms),
        0 < c < p.n(),
        0 <= b < p.n(),
    ensures
        over(p, c, b) <==> hang(p, p.idom[c] as int, b) == Some(c),
    decreases p.pos[b],
{
    let x = p.idom[c] as int;
    assert(p.pos[x] < p.pos[c]);
    if b > 0 && b != c {
        let d = p.idom[b] as int;
        assert(p.pos[d] < p.pos[b]);
        lemma_over(p, terms, c, d);
        if d == x {
            if hang(p, c, x) is Some {
                lemma_hang(p, terms, c, x);
            }
        }
    }
}

/// The block that an event belongs to.
spec fn owner(ev: Event) -> int {
    match ev {
        Event::Stmts(b) => b as int,
        Event::PhiMoves(u, _) => u as int,
        _ => -1,
    }
}

/// How often an event is due when its block is emitted.
spec fn due(terms: Seq<Term>, ev: Event) -> nat {
    match ev {
        Event::Stmts(_) => 1,
        Event::PhiMoves(u, t) => arms(terms, u as int, t as int),
        _ => 0,
    }
}

/// One part of a count.
spec fn if_so(b: bool, n: nat) -> nat {
    if b {
        n
    } else {
        0
    }
}

proof fn lemma_times(a: Seq<Event>, b: Seq<Event>, ev: Event)
    ensures
        times(a + b, ev) == times(a, ev) + times(b, ev),
    decreases b.len(),
{
    if b.len() == 0 {
        assert(a + b =~= a);
    } else {
        assert((a + b).drop_last() =~= a + b.drop_last());
        assert((a + b).last() == b.last());
        lemma_times(a, b.drop_last(), ev);
    }
}

proof fn lemma_next(a: Walk, b: Walk, ev: Event)
    requires
        and_next(a, b).1 is Ok,
    ensures
        a.1 is Ok,
        b.1 is Ok,
        times(and_next(a, b).0, ev) == times(a.0, ev) + times(b.0, ev),
{
    lemma_times(a.0, b.0, ev);
}

proof fn lemma_one(x: Event, ev: Event)
    ensures
        times(one(x).0, ev) == if_so(x == ev, 1),
{
    assert(seq![x].drop_last() =~= Seq::<Event>::empty());
    assert(times(seq![x].drop_last(), ev) == 0);
    assert(seq![x].last() == x);
}

proof fn lemma_tree(p: PlanV, terms: Seq<Term>, frames: Seq<Frame>, x: int, ev: Event)
    requires
        planted(p, terms),
        0 <= x < p.n(),
        0 <= owner(ev) < p.n(),
        p.tree(terms, frames, x).1 is Ok,
    ensures
        times(p.tree(terms, frames, x).0, ev) == if_so(over(p, x, owner(ev)), due(terms, ev)),
    decreases p.rank(x), 2int, 0int,
{
    let k = p.merges(x).len() as int;
    let b = owner(ev);
    let xs = x as usize;
    let in_ = if p.header[x] {
        frames.push(Frame::Loop(xs))
    } else {
        frames
    };
    let inner = p.node(terms, in_, x, k);
    if p.header[x] {
        let c = one(Event::Close);
        lemma_next(one(Event::OpenLoop(xs)), and_next(inner, c), ev);
        lemma_next(inner, c, ev);
        lemma_one(Event::OpenLoop(xs), ev);
        lemma_one(Event::Close, ev);
    }
    lemma_node(p, terms, in_, x, k, ev);
    if hang(p, x, b) is Some {
        lemma_hang(p, terms, x, b);
        let c = hang(p, x, b)->Some_0;
        assert(p.merge[c] ==> p.merges(x).contains(c as usize));
        assert(p.merges(x).take(k) =~= p.merges(x));
    }
}

/// Whether the block that hangs on `x` above `b` is emitted within the frames of the
/// first `k` merges of `x`.
spec fn within(p: PlanV, x: int, k: int, b: int) -> bool {
    match hang(p, x, b) {
        Some(c) => !p.merge[c] || p.merges(x).take(k).contains(c as usize),
        None => false,
    }
}

#[verifier::rlimit(40)]
#[verifier::spinoff_prover]
proof fn lemma_node(p: PlanV, terms: Seq<Term>, frames: Seq<Frame>, x: int, k: int, ev: Event)
    requires
        planted(p, terms),
        0 <= x < p.n(),
        0 <= k <= p.merges(x).len(),
        0 <= owner(ev) < p.n(),
        p.node(terms, frames, x, k).1 is Ok,
    ensures
        times(p.node(terms, frames, x, k).0, ev) == if_so(
            owner(ev) == x || within(p, x, k, owner(ev)),
            due(terms, ev),
        ),
    decreases p.rank(x), 1int, k,
{
    let b = owner(ev);
    let ms = p.merges(x);
    if k > 0 {
        let m = ms[k - 1];
        let inner = p.node(terms, frames.push(Frame::Block(m)), x, k - 1);
        let after = if p.rank(m as int) < p.rank(x) {
            p.tree(terms, frames, m as int)
        } else {
            no_frame()
        };
        let c = one(Event::Close);
        lemma_next(one(Event::OpenBlock(m)), and_next(inner, and_next(c, after)), ev);
        lemma_next(inner, and_next(c, after), ev);
        lemma_next(c, after, ev);
        lemma_one(Event::OpenBlock(m), ev);
        lemma_one(Event::Close, ev);
        lemma_node(p, terms, frames.push(Frame::Block(m)), x, k - 1, ev);
        lemma_tree(p, terms, frames, m as int, ev);
        lemma_over(p, terms, m as int, b);
        if hang(p, x, x) is Some {
            lemma_hang(p, terms, x, x);
        }
        lemma_within(p, terms, x, k, b);
    } else {
        lemma_leaf(p, terms, frames, x, ev);
        assert(ms.take(0) =~= Seq::<usize>::empty());
    }
}

/// One more merge.
proof fn lemma_within(p: PlanV, terms: Seq<Term>, x: int, k: int, b: int)
    requires
        planted(p, terms),
        0 <= x < p.n(),
        0 <= b < p.n(),
        0 < k <= p.merges(x).len(),
    ensures
        within(p, x, k, b) <==> within(p, x, k - 1, b) || hang(p, x, b) == Some(
            p.merges(x)[k - 1] as int,
        ),
        hang(p, x, b) == Some(p.merges(x)[k - 1] as int) ==> !within(p, x, k - 1, b),
{
    let ms = p.merges(x);
    if hang(p, x, b) is Some {
        lemma_hang(p, terms, x, b);
        let c = hang(p, x, b)->Some_0;
        let cs = c as usize;
        if ms.take(k).contains(cs) {
            let i = choose|i: int| 0 <= i < k && ms.take(k)[i] == cs;
            if i < k - 1 {
                assert(ms.take(k - 1)[i] == cs);
            }
        }
        let less = ms.take(k - 1);
        if less.contains(cs) {
            let i = choose|i: int| 0 <= i < less.len() && less[i] == cs;
            assert(ms.take(k)[i] == cs);
            assert(ms[i] != ms[k - 1]);
        }
        if cs == ms[k - 1] {
            assert(ms.take(k)[k - 1] == cs);
            assert(p.merge[ms[k - 1] as int]);
        }
    }
}

/// The block itself, and what its jumps emit in place.
#[verifier::rlimit(40)]
#[verifier::spinoff_prover]
proof fn lemma_leaf(p: PlanV, terms: Seq<Term>, frames: Seq<Frame>, x: int, ev: Event)
    requires
        planted(p, terms),
        0 <= x < p.n(),
        0 <= owner(ev) < p.n(),
        p.node(terms, frames, x, 0).1 is Ok,
    ensures
        times(p.node(terms, frames, x, 0).0, ev) == if_so(
            owner(ev) == x || within(p, x, 0, owner(ev)),
            due(terms, ev),
        ),
    decreases p.rank(x), 0int, 1int,
{
    let b = owner(ev);
    let xs = x as usize;
    assert(p.merges(x).take(0) =~= Seq::<usize>::empty());
    if hang(p, x, x) is Some {
        lemma_hang(p, terms, x, x);
    }
    if hang(p, x, b) is Some {
        lemma_hang(p, terms, x, b);
        let c = hang(p, x, b)->Some_0;
        assert(p.pos[p.idom[c] as int] < p.pos[c]);
        assert(!p.merge[c] ==> target(terms, x, c));
    }
    lemma_one(Event::Stmts(xs), ev);
    match terms[x] {
        Term::If { then_, else_ } => {
            let fs = frames.push(Frame::If);
            let yes = p.branch(terms, fs, x, then_ as int);
            let no = p.branch(terms, fs, x, else_ as int);
            let o = one(Event::OpenIf(xs));
            let s = one(Event::ElseArm);
            let c = one(Event::Close);
            let t1 = and_next(no, c);
            let t2 = and_next(s, t1);
            let t3 = and_next(yes, t2);
            let t4 = and_next(o, t3);
            lemma_next(one(Event::Stmts(xs)), t4, ev);
            lemma_next(o, t3, ev);
            lemma_next(yes, t2, ev);
            lemma_next(s, t1, ev);
            lemma_next(no, c, ev);
            lemma_one(Event::OpenIf(xs), ev);
            lemma_one(Event::ElseArm, ev);
            lemma_one(Event::Close, ev);
            lemma_branch(p, terms, fs, x, then_ as int, ev);
            lemma_branch(p, terms, fs, x, else_ as int, ev);
        },
        Term::Goto(t) => {
            lemma_next(one(Event::Stmts(xs)), p.branch(terms, frames, x, t as int), ev);
            lemma_branch(p, terms, frames, x, t as int, ev);
        },
        Term::Return => {
            lemma_next(one(Event::Stmts(xs)), one(Event::Ret(xs)), ev);
            lemma_one(Event::Ret(xs), ev);
        },
    }
}

/// A jump: its choices, and its target where that is emitted in place.
proof fn lemma_branch(p: PlanV, terms: Seq<Term>, frames: Seq<Frame>, x: int, t: int, ev: Event)
    requires
        planted(p, terms),
        0 <= x < p.n(),
        0 <= t < p.n(),
        target(terms, x, t),
        0 <= owner(ev) < p.n(),
        p.branch(terms, frames, x, t).1 is Ok,
    ensures
        times(p.branch(terms, frames, x, t).0, ev) == if_so(
            ev == Event::PhiMoves(x as usize, t as usize),
            1,
        ) + if_so(
            p.pos[x] < p.pos[t] && !p.merge[t] && hang(p, x, owner(ev)) == Some(t),
            due(terms, ev),
        ),
    decreases p.rank(x), 0int, 0int,
{
    let xs = x as usize;
    let us = t as usize;
    let b = owner(ev);
    let a = one(Event::PhiMoves(xs, us));
    let rest = if p.pos[t] <= p.pos[x] {
        p.leave(frames, Frame::Loop(us))
    } else if p.merge[t] {
        p.leave(frames, Frame::Block(us))
    } else if p.rank(t) < p.rank(x) {
        p.tree(terms, frames, t)
    } else {
        no_frame()
    };
    lemma_next(a, rest, ev);
    lemma_one(Event::PhiMoves(xs, us), ev);
    if p.pos[t] <= p.pos[x] || p.merge[t] {
        let f = if p.pos[t] <= p.pos[x] {
            Frame::Loop(us)
        } else {
            Frame::Block(us)
        };
        match crate::relooper::depth(frames, f, frames.len() as int) {
            Some(d) => {
                lemma_one(Event::Br((d as usize) as u32), ev);
            },
            None => {},
        }
    } else {
        lemma_tree(p, terms, frames, t, ev);
        lemma_over(p, terms, t, b);
    }
}

/// A plan for a reducible graph plants its blocks.
#[verifier::rlimit(40)]
#[verifier::spinoff_prover]
proof fn lemma_planted(g: CfgV, p: PlanV, terms: Seq<Term>)
    requires
        g.wf(),
        g.rpo().len() == g.n(),
        backs_dominate(g),
        p.is_for(g),
        p.wf(),
        terms_cover(g, terms),
    ensures
        planted(p, terms),
{
    law_rpo(g);
    let n = g.n();
    assert forall|b: int| 0 < b < n implies #[trigger] p.idom[b] < n && p.pos[p.idom[b] as int]
        < p.pos[b] by {
        assert(is_idom(g, p.pos, p.idom[b] as int, b));
        law_dominators_come_first(g, p.pos, p.idom[b] as int, b);
    }
    assert forall|x: int| 0 <= x < n implies #[trigger] planted_at(p, x) by {
        lemma_dominated(g, p.pos, p.idom, x, n);
        assert(p.children[x] == crate::relooper::dominated(g.rpo(), p.idom, x, n));
        lemma_merges(p.children[x], p.merge, p.pos, p.children[x].len() as int);
        let ms = p.merges(x);
        assert forall|i: int| 0 <= i < ms.len() implies ({
            let m = #[trigger] ms[i];
            &&& 0 < m < n
            &&& p.idom[m as int] == x
            &&& p.merge[m as int]
        }) by {
            let a = choose|a: int| 0 <= a < p.children[x].len() && p.children[x][a] == ms[i];
            assert(0 < p.children[x][a] < n);
        }
        assert forall|c: int| #![trigger p.merge[c]] 0 < c < n && p.merge[c] && p.idom[c]
            == x implies ms.contains(c as usize) by {
            assert(p.pos[c] < n);
            assert(p.children[x].contains(c as usize));
            let a = choose|a: int| 0 <= a < p.children[x].len() && p.children[x][a] == c as usize;
            assert(p.merge[p.children[x][a] as int]);
        }
    }
    assert forall|c: int| #![trigger p.merge[c]] 0 < c < n && p.merge[c] implies p.merges(
        p.idom[c] as int,
    ).contains(c as usize) by {
        assert(planted_at(p, p.idom[c] as int));
    }
    assert forall|x: int, i: int|
        #![trigger p.merges(x)[i]]
        0 <= x < n && 0 <= i < p.merges(x).len() implies ({
        let m = p.merges(x)[i];
        &&& 0 < m < n
        &&& p.idom[m as int] == x
        &&& p.merge[m as int]
    }) by {
        assert(planted_at(p, x));
    }
    assert forall|x: int, i: int, j: int|
        #![trigger p.merges(x)[i], p.merges(x)[j]]
        0 <= x < n && 0 <= i < j < p.merges(x).len() implies p.merges(x)[i] != p.merges(x)[j] by {
        assert(planted_at(p, x));
    }
    assert forall|x: int, t: int|
        0 <= x < n && 0 <= t < n && #[trigger] target(terms, x, t) && p.pos[x] < p.pos[t]
            && !p.merge[t] implies t > 0 && p.idom[t] == x by {
        assert(g.edge(x, t));
        lemma_sole_pred(g, p, x, t);
    }
    assert forall|c: int| #![trigger p.merge[c]] 0 < c < n && !p.merge[c] implies target(
        terms,
        p.idom[c] as int,
        c,
    ) by {
        lemma_entered(g, p, c);
    }
    assert forall|x: int| 0 <= x < n implies match #[trigger] terms[x] {
        Term::If { then_, else_ } => {
            &&& then_ < n && else_ < n
            &&& then_ == else_ ==> p.pos[then_ as int] <= p.pos[x] || p.merge[then_ as int]
        },
        Term::Goto(t) => t < n,
        Term::Return => true,
    } by {
        if let Term::If { then_, else_ } = terms[x] {
            let t = then_ as int;
            assert(then_ < n && else_ < n);
            if then_ == else_ && p.pos[x] < p.pos[t] {
                let (i, j) = choose|i: int, j: int|
                    0 <= i < j < g.preds[t].len() && #[trigger] g.preds[t][i] == x && #[trigger]
                        g.preds[t][j] == x;
                lemma_two_forward(g.preds[t], p.pos, t, g.preds[t].len() as int, i, j);
            }
        }
    }
}

/// The merges of one block.
spec fn planted_at(p: PlanV, x: int) -> bool {
    let ms = p.merges(x);
    &&& forall|i: int|
        0 <= i < ms.len() ==> {
            let m = #[trigger] ms[i];
            &&& 0 < m < p.n()
            &&& p.idom[m as int] == x
            &&& p.merge[m as int]
        }
    &&& forall|i: int, j: int|
        0 <= i < j < ms.len() ==> p.pos[#[trigger] ms[i] as int] < p.pos[#[trigger] ms[j] as int]
    &&& forall|c: int|
        #![trigger p.merge[c]]
        0 < c < p.n() && p.merge[c] && p.idom[c] == x ==> ms.contains(c as usize)
}

/// A block that is no merge is entered from its immediate dominator.
proof fn lemma_entered(g: CfgV, p: PlanV, c: int)
    requires
        g.wf(),
        g.rpo().len() == g.n(),
        backs_dominate(g),
        p.is_for(g),
        0 < c < g.n(),
        !p.merge[c],
    ensures
        g.edge(p.idom[c] as int, c),
{
    law_rpo(g);
    let k = p.pos[c] as int;
    assert(g.rpo()[k] == c);
    assert(k > 0);
    let j = choose|j: int|
        0 <= j < k && g.edge(#[trigger] g.rpo()[j] as int, g.rpo()[k] as int);
    let u = g.rpo()[j] as int;
    assert(p.pos[u] == j);
    lemma_sole_pred(g, p, u, c);
}

/// Every block of a reducible graph is emitted exactly once, and so are the choices of
/// every edge, the two arms of a choice that lead to one block being two edges.
pub proof fn law_each_block_and_edge_once(g: CfgV, p: PlanV, terms: Seq<Term>, b: int, t: int)
    requires
        g.wf(),
        g.rpo().len() == g.n(),
        g.bad_edge(0, 0) is None,
        p.is_for(g),
        p.wf(),
        terms_cover(g, terms),
        0 <= b < g.n(),
    ensures
        times(p.walk(terms).0, Event::Stmts(b as usize)) == 1,
        0 <= t < g.n() ==> times(p.walk(terms).0, Event::PhiMoves(b as usize, t as usize)) == arms(
            terms,
            b,
            t,
        ),
        0 <= t < g.n() ==> (g.edge(b, t) <==> arms(terms, b, t) > 0),
{
    lemma_backs(g);
    lemma_planted(g, p, terms);
    crate::reducible::law_reducible_graphs_are_walked(g, p, terms);
    lemma_rooted(p, terms, b);
    let none = Seq::<Frame>::empty();
    lemma_tree(p, terms, none, 0, Event::Stmts(b as usize));
    if 0 <= t < g.n() {
        lemma_tree(p, terms, none, 0, Event::PhiMoves(b as usize, t as usize));
        assert(terms_match(g, terms));
        assert(target(terms, b, t) ==> g.edge(b, t));
    }
}

/// Every block is below the entry.
proof fn lemma_rooted(p: PlanV, terms: Seq<Term>, b: int)
    requires
        planted(p, terms),
        0 <= b < p.n(),
    ensures
        over(p, 0, b),
    decreases p.pos[b],
{
    if b > 0 {
        assert(p.pos[p.idom[b] as int] < p.pos[b]);
        lemma_rooted(p, terms, p.idom[b] as int);
    }
}

} // verus!
