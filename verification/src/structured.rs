//! What structured code does: a check that the events of a walk follow the graph.
//!
//! The check keeps the frames that are open and where control stands. Code for a
//! block begins with the frames it opens and its statements; its end branches out
//! of frames or goes on with the code of the target. A loop frame begins with the
//! code of its header, so that branching out to it goes to the header; what follows
//! a block frame is the code of its merge, so that branching out of it goes to the
//! merge.

use vstd::prelude::*;
use crate::relooper::{and_next, depth, one, terms_fit, Event, Frame, PlanV, Term, Walk};

verus! {

/// An open frame, with the arm of an if frame that is being emitted.
pub enum Open {
    Loop(usize),
    Block(usize),
    Then(usize),
    Else(usize),
}

/// Where control stands.
pub enum Place {
    /// The code of this block must follow.
    Enter(usize),
    /// The end of this block must follow.
    End(usize),
    /// The edge from the first block to the second must follow.
    Edge(usize, usize),
    /// The second block must be reached from here, by a branch or by its code.
    Reach(usize),
    /// Control never stands here.
    Never,
}

/// The frames that are open, the innermost last, and where control stands.
#[verifier::ext_equal]
pub struct Follow {
    pub open: Seq<Open>,
    pub at: Place,
}

/// The frame that a branch names.
pub open spec fn frame_of(o: Open) -> Frame {
    match o {
        Open::Loop(x) => Frame::Loop(x),
        Open::Block(x) => Frame::Block(x),
        Open::Then(_) => Frame::If,
        Open::Else(_) => Frame::If,
    }
}

pub open spec fn frames_of(open: Seq<Open>) -> Seq<Frame> {
    open.map_values(|o: Open| frame_of(o))
}

/// The beginning of the code of the block `t`.
pub open spec fn enter(f: Follow, t: usize, ev: Event) -> Option<Follow> {
    match ev {
        Event::OpenLoop(x) => if x == t {
            Some(Follow { open: f.open.push(Open::Loop(x)), at: Place::Enter(t) })
        } else {
            None
        },
        Event::OpenBlock(m) => Some(
            Follow { open: f.open.push(Open::Block(m)), at: Place::Enter(t) },
        ),
        Event::Stmts(x) => if x == t {
            Some(Follow { at: Place::End(t), ..f })
        } else {
            None
        },
        _ => None,
    }
}

/// The event `ev` where it follows the graph, and what follows it.
pub open spec fn follow(terms: Seq<Term>, f: Follow, ev: Event) -> Option<Follow> {
    match f.at {
        Place::Enter(t) => enter(f, t, ev),
        Place::End(x) => if x >= terms.len() {
            None
        } else {
            match (terms[x as int], ev) {
                (Term::Return, Event::Ret(y)) => if y == x {
                    Some(Follow { at: Place::Never, ..f })
                } else {
                    None
                },
                (Term::Goto(t), Event::PhiMoves(y, u)) => if y == x && u == t {
                    Some(Follow { at: Place::Reach(t), ..f })
                } else {
                    None
                },
                (Term::If { then_, .. }, Event::OpenIf(y)) => if y == x {
                    Some(Follow { open: f.open.push(Open::Then(x)), at: Place::Edge(x, then_) })
                } else {
                    None
                },
                _ => None,
            }
        },
        Place::Edge(x, t) => if ev == Event::PhiMoves(x, t) {
            Some(Follow { at: Place::Reach(t), ..f })
        } else {
            None
        },
        Place::Reach(t) => match ev {
            Event::Br(d) => if d < f.open.len() && {
                let o = f.open[f.open.len() - 1 - d];
                o == Open::Loop(t) || o == Open::Block(t)
            } {
                Some(Follow { at: Place::Never, ..f })
            } else {
                None
            },
            _ => enter(f, t, ev),
        },
        Place::Never => if f.open.len() == 0 {
            None
        } else {
            match (f.open.last(), ev) {
                (Open::Loop(_), Event::Close) => Some(
                    Follow { open: f.open.drop_last(), at: Place::Never },
                ),
                (Open::Block(m), Event::Close) => Some(
                    Follow { open: f.open.drop_last(), at: Place::Enter(m) },
                ),
                (Open::Then(x), Event::ElseArm) => if x >= terms.len() {
                    None
                } else {
                    match terms[x as int] {
                        Term::If { else_, .. } => Some(
                            Follow {
                                open: f.open.drop_last().push(Open::Else(x)),
                                at: Place::Edge(x, else_),
                            },
                        ),
                        _ => None,
                    }
                },
                (Open::Else(_), Event::Close) => Some(
                    Follow { open: f.open.drop_last(), at: Place::Never },
                ),
                _ => None,
            }
        },
    }
}

/// Where events lead that follow the graph one after the other.
pub open spec fn follow_all(terms: Seq<Term>, f: Follow, evs: Seq<Event>) -> Option<Follow>
    decreases evs.len(),
{
    if evs.len() == 0 {
        Some(f)
    } else {
        match follow_all(terms, f, evs.drop_last()) {
            Some(g) => follow(terms, g, evs.last()),
            None => None,
        }
    }
}

/// Whether the events lead from one point to another.
spec fn leads(terms: Seq<Term>, f: Follow, evs: Seq<Event>, g: Follow) -> bool {
    follow_all(terms, f, evs) == Some(g)
}

proof fn lemma_leads_on(
    terms: Seq<Term>,
    f: Follow,
    a: Seq<Event>,
    g: Follow,
    b: Seq<Event>,
    h: Follow,
)
    requires
        leads(terms, f, a, g),
        leads(terms, g, b, h),
    ensures
        leads(terms, f, a + b, h),
    decreases b.len(),
{
    if b.len() == 0 {
        assert(a + b =~= a);
    } else {
        assert((a + b).drop_last() =~= a + b.drop_last());
        assert((a + b).last() == b.last());
        let m = follow_all(terms, g, b.drop_last())->Some_0;
        lemma_leads_on(terms, f, a, g, b.drop_last(), m);
    }
}

proof fn lemma_leads_one(terms: Seq<Term>, f: Follow, ev: Event, g: Follow)
    requires
        follow(terms, f, ev) == Some(g),
    ensures
        leads(terms, f, one(ev).0, g),
{
    let evs = one(ev).0;
    assert(evs.drop_last() =~= Seq::<Event>::empty());
    assert(follow_all(terms, f, evs.drop_last()) == Some(f));
    assert(evs.last() == ev);
}

/// Two parts of a walk that both succeeded.
proof fn lemma_both(terms: Seq<Term>, f: Follow, a: Walk, g: Follow, b: Walk, h: Follow)
    requires
        and_next(a, b).1 is Ok,
        leads(terms, f, a.0, g),
        leads(terms, g, b.0, h),
    ensures
        leads(terms, f, and_next(a, b).0, h),
{
    lemma_leads_on(terms, f, a.0, g, b.0, h);
}

/// Whether the code of `t` can begin at `f`.
spec fn begins(f: Follow, t: int) -> bool {
    f.at == Place::Enter(t as usize) || f.at == Place::Reach(t as usize)
}

spec fn ended(f: Follow) -> Follow {
    Follow { at: Place::Never, ..f }
}

proof fn lemma_depth(frames: Seq<Frame>, f: Frame, k: int)
    requires
        0 <= k <= frames.len(),
    ensures
        match depth(frames, f, k) {
            Some(d) => 0 <= d < frames.len() && frames[frames.len() - 1 - d] == f,
            None => true,
        },
    decreases k,
{
    if k > 0 && frames[k - 1] != f {
        lemma_depth(frames, f, k - 1);
    }
}

proof fn lemma_leave(p: PlanV, terms: Seq<Term>, f: Follow, fr: Frame, t: usize)
    requires
        p.leave(frames_of(f.open), fr).1 is Ok,
        f.at == Place::Reach(t),
        fr == Frame::Loop(t) || fr == Frame::Block(t),
        f.open.len() <= u32::MAX,
    ensures
        leads(terms, f, p.leave(frames_of(f.open), fr).0, ended(f)),
{
    let frames = frames_of(f.open);
    lemma_depth(frames, fr, frames.len() as int);
    let d = depth(frames, fr, frames.len() as int)->Some_0;
    assert(frames[frames.len() - 1 - d] == frame_of(f.open[frames.len() - 1 - d]));
    lemma_leads_one(terms, f, Event::Br((d as usize) as u32), ended(f));
}

proof fn lemma_tree(p: PlanV, terms: Seq<Term>, f: Follow, x: int)
    requires
        p.wf(),
        terms_fit(terms, p.n()),
        0 <= x < p.n(),
        begins(f, x),
        p.tree(terms, frames_of(f.open), x).1 is Ok,
        f.open.len() + p.tree(terms, frames_of(f.open), x).0.len() <= u32::MAX,
    ensures
        leads(terms, f, p.tree(terms, frames_of(f.open), x).0, ended(f)),
    decreases p.rank(x), 2int, 0int,
{
    let k = p.merges(x).len() as int;
    let xs = x as usize;
    if p.header[x] {
        let g = Follow { open: f.open.push(Open::Loop(xs)), at: Place::Enter(xs) };
        assert(frames_of(g.open) =~= frames_of(f.open).push(Frame::Loop(xs)));
        let inner = p.node(terms, frames_of(g.open), x, k);
        let a = one(Event::OpenLoop(xs));
        let c = one(Event::Close);
        assert(and_next(inner, c).1 is Ok);
        lemma_node(p, terms, g, x, k);
        lemma_leads_one(terms, f, Event::OpenLoop(xs), g);
        assert(g.open.drop_last() =~= f.open);
        lemma_leads_one(terms, ended(g), Event::Close, ended(f));
        lemma_both(terms, g, inner, ended(g), c, ended(f));
        lemma_both(terms, f, a, g, and_next(inner, c), ended(f));
    } else {
        lemma_node(p, terms, f, x, k);
    }
}

proof fn lemma_merge_of(p: PlanV, x: int, k: int)
    requires
        p.wf(),
        0 <= x < p.n(),
        0 < k <= p.merges(x).len(),
    ensures
        p.merges(x)[k - 1] < p.n(),
{
    lemma_merges_listed(p.children[x], p.merge, p.children[x].len() as int, k - 1);
    let m = p.merges(x)[k - 1];
    let i = choose|i: int| 0 <= i < p.children[x].len() && p.children[x][i] == m;
    assert(p.children[x][i] < p.n());
}

proof fn lemma_merges_listed(list: Seq<usize>, merge: Seq<bool>, k: int, j: int)
    requires
        0 <= k <= list.len(),
        0 <= j < crate::relooper::merges_of(list, merge, k).len(),
    ensures
        exists|i: int| 0 <= i < k && list[i] == crate::relooper::merges_of(list, merge, k)[j],
    decreases k,
{
    if k > 0 {
        let rest = crate::relooper::merges_of(list, merge, k - 1);
        if j < rest.len() {
            lemma_merges_listed(list, merge, k - 1, j);
        } else {
            assert(list[k - 1] == crate::relooper::merges_of(list, merge, k)[j]);
        }
    }
}

#[verifier::rlimit(40)]
proof fn lemma_node(p: PlanV, terms: Seq<Term>, f: Follow, x: int, k: int)
    requires
        p.wf(),
        terms_fit(terms, p.n()),
        0 <= x < p.n(),
        0 <= k <= p.merges(x).len(),
        begins(f, x),
        p.node(terms, frames_of(f.open), x, k).1 is Ok,
        f.open.len() + p.node(terms, frames_of(f.open), x, k).0.len() <= u32::MAX,
    ensures
        leads(terms, f, p.node(terms, frames_of(f.open), x, k).0, ended(f)),
    decreases p.rank(x), 1int, k,
{
    let xs = x as usize;
    let frames = frames_of(f.open);
    if k > 0 {
        let m = p.merges(x)[k - 1];
        lemma_merge_of(p, x, k);
        let g = Follow { open: f.open.push(Open::Block(m)), at: Place::Enter(xs) };
        assert(frames_of(g.open) =~= frames.push(Frame::Block(m)));
        let inner = p.node(terms, frames_of(g.open), x, k - 1);
        let after = if p.rank(m as int) < p.rank(x) {
            p.tree(terms, frames, m as int)
        } else {
            crate::relooper::no_frame()
        };
        let a = one(Event::OpenBlock(m));
        let c = one(Event::Close);
        let tail = and_next(c, after);
        assert(and_next(inner, tail).1 is Ok);
        lemma_node(p, terms, g, x, k - 1);
        let h = Follow { open: f.open, at: Place::Enter(m) };
        assert(g.open.drop_last() =~= f.open);
        lemma_leads_one(terms, f, Event::OpenBlock(m), g);
        lemma_leads_one(terms, ended(g), Event::Close, h);
        lemma_tree(p, terms, h, m as int);
        lemma_both(terms, ended(g), c, h, after, ended(f));
        lemma_both(terms, g, inner, ended(g), tail, ended(f));
        lemma_both(terms, f, a, g, and_next(inner, tail), ended(f));
    } else {
        let g = Follow { at: Place::End(xs), ..f };
        lemma_leads_one(terms, f, Event::Stmts(xs), g);
        let a = one(Event::Stmts(xs));
        match terms[x] {
            Term::If { then_, else_ } => {
                let h = Follow { open: f.open.push(Open::Then(xs)), at: Place::Edge(xs, then_) };
                let i = Follow { open: f.open.push(Open::Else(xs)), at: Place::Edge(xs, else_) };
                assert(frames_of(h.open) =~= frames.push(Frame::If));
                assert(frames_of(i.open) =~= frames.push(Frame::If));
                let yes = p.branch(terms, frames.push(Frame::If), x, then_ as int);
                let no = p.branch(terms, frames.push(Frame::If), x, else_ as int);
                let o = one(Event::OpenIf(xs));
                let s = one(Event::ElseArm);
                let c = one(Event::Close);
                let t1 = and_next(no, c);
                let t2 = and_next(s, t1);
                let t3 = and_next(yes, t2);
                let t4 = and_next(o, t3);
                assert(t4.1 is Ok && t3.1 is Ok && t2.1 is Ok && t1.1 is Ok);
                assert(t4.0.len() == 1 + yes.0.len() + 1 + no.0.len() + 1);
                lemma_branch(p, terms, h, x, then_ as int);
                lemma_branch(p, terms, i, x, else_ as int);
                lemma_leads_one(terms, g, Event::OpenIf(xs), h);
                assert(h.open.drop_last() =~= f.open);
                assert(i.open.drop_last() =~= f.open);
                lemma_leads_one(terms, ended(h), Event::ElseArm, i);
                lemma_leads_one(terms, ended(i), Event::Close, ended(f));
                lemma_both(terms, i, no, ended(i), c, ended(f));
                lemma_both(terms, ended(h), s, i, t1, ended(f));
                lemma_both(terms, h, yes, ended(h), t2, ended(f));
                lemma_both(terms, g, o, h, t3, ended(f));
                lemma_both(terms, f, a, g, t4, ended(f));
            },
            Term::Goto(t) => {
                let rest = p.branch(terms, frames, x, t as int);
                lemma_branch(p, terms, g, x, t as int);
                lemma_both(terms, f, a, g, rest, ended(f));
            },
            Term::Return => {
                lemma_leads_one(terms, g, Event::Ret(xs), ended(f));
                lemma_both(terms, f, a, g, one(Event::Ret(xs)), ended(f));
            },
        }
    }
}

proof fn lemma_branch(p: PlanV, terms: Seq<Term>, f: Follow, x: int, t: int)
    requires
        p.wf(),
        terms_fit(terms, p.n()),
        0 <= x < p.n(),
        0 <= t < p.n(),
        f.at == Place::Edge(x as usize, t as usize) || (f.at == Place::End(x as usize) && terms[x]
            == Term::Goto(t as usize)),
        p.branch(terms, frames_of(f.open), x, t).1 is Ok,
        f.open.len() + p.branch(terms, frames_of(f.open), x, t).0.len() <= u32::MAX,
    ensures
        leads(terms, f, p.branch(terms, frames_of(f.open), x, t).0, ended(f)),
    decreases p.rank(x), 0int, 0int,
{
    let xs = x as usize;
    let us = t as usize;
    let frames = frames_of(f.open);
    let g = Follow { at: Place::Reach(us), ..f };
    let a = one(Event::PhiMoves(xs, us));
    lemma_leads_one(terms, f, Event::PhiMoves(xs, us), g);
    let rest = if p.pos[t] <= p.pos[x] {
        p.leave(frames, Frame::Loop(us))
    } else if p.merge[t] {
        p.leave(frames, Frame::Block(us))
    } else if p.rank(t) < p.rank(x) {
        p.tree(terms, frames, t)
    } else {
        crate::relooper::no_frame()
    };
    assert(p.branch(terms, frames, x, t) == and_next(a, rest));
    assert(rest.1 is Ok);
    if p.pos[t] <= p.pos[x] {
        lemma_leave(p, terms, g, Frame::Loop(us), us);
    } else if p.merge[t] {
        lemma_leave(p, terms, g, Frame::Block(us), us);
    } else {
        lemma_tree(p, terms, g, t);
    }
    lemma_both(terms, f, a, g, rest, ended(f));
}

/// The events of a walk that succeeds follow the graph: every block's code begins
/// where control reaches it, every edge ends at its target, frames are closed in
/// the order they were opened in, and control leaves by a return alone.
pub proof fn law_walk_follows_the_graph(p: PlanV, terms: Seq<Term>)
    requires
        p.wf(),
        p.n() > 0,
        terms_fit(terms, p.n()),
        p.walk(terms).1 is Ok,
        p.walk(terms).0.len() <= u32::MAX,
    ensures
        follow_all(
            terms,
            (Follow { open: Seq::empty(), at: Place::Enter(0) }),
            p.walk(terms).0,
        ) == Some((Follow { open: Seq::empty(), at: Place::Never })),
{
    let f = Follow { open: Seq::empty(), at: Place::Enter(0) };
    assert(frames_of(f.open) =~= Seq::empty());
    lemma_tree(p, terms, f, 0);
}

} // verus!
