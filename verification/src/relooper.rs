//! Structured control flow from a reducible graph.
//!
//! A block that is the target of a back edge becomes a loop, and one with two or more
//! forward edges becomes a merge that follows a block frame. Code is emitted along
//! the dominator tree: a branch goes out of an enclosing frame, or the dominated
//! target is emitted in its place. The walk tells an [`Emit`] what to emit, as a
//! sequence of events.

use vstd::prelude::*;
use crate::bytes::{decimal, decimal_text, push_bytes, push_text, text, told, utf8};
use crate::graph::{
    are_idoms, dominates, idoms, is_positions, law_dominators_come_first, law_rpo, positions, rpo,
    Cfg, CfgV,
};

verus! {

/// What the walk asks for.
#[derive(Clone, Copy, PartialEq, Eq, Structural)]
pub enum Event {
    /// Open a loop frame for a header.
    OpenLoop(usize),
    /// Open a block frame that a merge follows.
    OpenBlock(usize),
    /// Close the innermost frame.
    Close,
    /// Emit the statements of a block.
    Stmts(usize),
    /// Emit the choices for an edge.
    PhiMoves(usize, usize),
    /// Branch out of a frame, counted from the innermost.
    Br(u32),
    /// Emit a block's condition and open an if frame.
    OpenIf(usize),
    /// Switch to the other arm of the if frame.
    ElseArm,
    /// Emit a block's return.
    Ret(usize),
}

/// What emits the events of a walk. Its state has a picture, and every event has its
/// effect on that picture.
pub trait Emit: Sized {
    /// The picture of the state.
    type V;

    spec fn state(&self) -> Self::V;

    /// The picture after an event.
    spec fn next(v: Self::V, ev: Event) -> Self::V;

    /// Whether events can be emitted.
    spec fn ok(&self) -> bool;

    /// The number of blocks that there are.
    spec fn blocks(&self) -> nat;

    fn open_loop(&mut self, x: usize)
        requires
            old(self).ok(),
            x < old(self).blocks(),
        ensures
            final(self).ok(),
            final(self).blocks() == old(self).blocks(),
            final(self).state() == Self::next(old(self).state(), Event::OpenLoop(x)),
    ;

    fn open_block(&mut self, follow: usize)
        requires
            old(self).ok(),
            follow < old(self).blocks(),
        ensures
            final(self).ok(),
            final(self).blocks() == old(self).blocks(),
            final(self).state() == Self::next(old(self).state(), Event::OpenBlock(follow)),
    ;

    fn close(&mut self)
        requires
            old(self).ok(),
        ensures
            final(self).ok(),
            final(self).blocks() == old(self).blocks(),
            final(self).state() == Self::next(old(self).state(), Event::Close),
    ;

    fn stmts(&mut self, x: usize)
        requires
            old(self).ok(),
            x < old(self).blocks(),
        ensures
            final(self).ok(),
            final(self).blocks() == old(self).blocks(),
            final(self).state() == Self::next(old(self).state(), Event::Stmts(x)),
    ;

    fn phi_moves(&mut self, x: usize, target: usize)
        requires
            old(self).ok(),
            x < old(self).blocks(),
            target < old(self).blocks(),
        ensures
            final(self).ok(),
            final(self).blocks() == old(self).blocks(),
            final(self).state() == Self::next(old(self).state(), Event::PhiMoves(x, target)),
    ;

    fn br(&mut self, depth: u32)
        requires
            old(self).ok(),
        ensures
            final(self).ok(),
            final(self).blocks() == old(self).blocks(),
            final(self).state() == Self::next(old(self).state(), Event::Br(depth)),
    ;

    fn open_if(&mut self, x: usize)
        requires
            old(self).ok(),
            x < old(self).blocks(),
        ensures
            final(self).ok(),
            final(self).blocks() == old(self).blocks(),
            final(self).state() == Self::next(old(self).state(), Event::OpenIf(x)),
    ;

    fn else_arm(&mut self)
        requires
            old(self).ok(),
        ensures
            final(self).ok(),
            final(self).blocks() == old(self).blocks(),
            final(self).state() == Self::next(old(self).state(), Event::ElseArm),
    ;

    fn ret(&mut self, x: usize)
        requires
            old(self).ok(),
            x < old(self).blocks(),
        ensures
            final(self).ok(),
            final(self).blocks() == old(self).blocks(),
            final(self).state() == Self::next(old(self).state(), Event::Ret(x)),
    ;
}

/// The picture after some events.
pub open spec fn play<E: Emit>(v: E::V, evs: Seq<Event>) -> E::V
    decreases evs.len(),
{
    if evs.len() == 0 {
        v
    } else {
        E::next(play::<E>(v, evs.drop_last()), evs.last())
    }
}

/// Events one after the other.
proof fn lemma_play<E: Emit>(v: E::V, a: Seq<Event>, b: Seq<Event>)
    ensures
        play::<E>(play::<E>(v, a), b) == play::<E>(v, a + b),
    decreases b.len(),
{
    if b.len() == 0 {
        assert(a + b =~= a);
    } else {
        lemma_play::<E>(v, a, b.drop_last());
        assert((a + b).drop_last() =~= a + b.drop_last());
    }
}

/// A single event.
proof fn lemma_play_one<E: Emit>(v: E::V, ev: Event)
    ensures
        play::<E>(v, seq![ev]) == E::next(v, ev),
{
    let one = seq![ev];
    assert(one.drop_last() =~= Seq::<Event>::empty());
    assert(play::<E>(v, one.drop_last()) == v);
}

/// How a block ends.
#[derive(Clone, Copy, PartialEq, Eq, Structural)]
pub enum Term {
    /// To `then_` where the condition holds, or else to `else_`.
    If { then_: usize, else_: usize },
    Goto(usize),
    Return,
}

/// An open frame.
#[derive(Clone, Copy, PartialEq, Eq, Structural)]
pub enum Frame {
    Loop(usize),
    Block(usize),
    If,
}

/// Whether all targets are among `n` blocks.
pub open spec fn terms_fit(terms: Seq<Term>, n: nat) -> bool {
    &&& terms.len() == n
    &&& forall|x: int|
        0 <= x < n ==> match #[trigger] terms[x] {
            Term::If { then_, else_ } => then_ < n && else_ < n,
            Term::Goto(t) => t < n,
            Term::Return => true,
        }
}

/// The first place from `i` on where `b` stands in `order`.
pub open spec fn place(order: Seq<usize>, b: int, i: int) -> int
    decreases order.len() - i,
{
    if i < 0 || i >= order.len() || order[i] == b {
        i
    } else {
        place(order, b, i + 1)
    }
}

/// The number of the first `k` predecessors that come before `v`.
pub open spec fn forward_preds(preds: Seq<usize>, pos: Seq<usize>, v: int, k: int) -> nat
    decreases k,
{
    if k <= 0 || k > preds.len() {
        0
    } else {
        forward_preds(preds, pos, v, k - 1) + if pos[preds[k - 1] as int] < pos[v] {
            1nat
        } else {
            0nat
        }
    }
}

/// The blocks among the first `k` of an order whose immediate dominator is `x`.
pub open spec fn dominated(order: Seq<usize>, idom: Seq<usize>, x: int, k: int) -> Seq<usize>
    decreases k,
{
    if k <= 0 || k > order.len() {
        Seq::empty()
    } else if order[k - 1] != 0 && idom[order[k - 1] as int] == x {
        dominated(order, idom, x, k - 1).push(order[k - 1])
    } else {
        dominated(order, idom, x, k - 1)
    }
}

/// The merges among the first `k` blocks of a list.
pub open spec fn merges_of(list: Seq<usize>, merge: Seq<bool>, k: int) -> Seq<usize>
    decreases k,
{
    if k <= 0 || k > list.len() {
        Seq::empty()
    } else if merge[list[k - 1] as int] {
        merges_of(list, merge, k - 1).push(list[k - 1])
    } else {
        merges_of(list, merge, k - 1)
    }
}

impl CfgV {
    /// The position of every block in reverse postorder.
    pub open spec fn positions(self) -> Seq<usize> {
        Seq::new(self.n() as nat, |b: int| place(self.rpo(), b, 0) as usize)
    }

    /// Whether the edge from `u` to `v` goes back.
    pub open spec fn goes_back(self, u: int, v: int) -> bool {
        self.positions()[v] <= self.positions()[u]
    }

    /// The first edge from successor number `k` of block `u` on that goes back to a
    /// block that does not dominate its source.
    pub open spec fn bad_edge(self, u: int, k: int) -> Option<(usize, usize)>
        decreases
                self.n() - u,
                (if 0 <= u < self.n() {
                    self.succs[u].len() - k
                } else {
                    0
                }),
    {
        if u < 0 || u >= self.n() {
            None
        } else if k < 0 || k >= self.succs[u].len() {
            self.bad_edge(u + 1, 0)
        } else if self.goes_back(u, self.succs[u][k] as int) && !self.dominates(
            self.succs[u][k] as int,
            u,
        ) {
            Some((u as usize, self.succs[u][k]))
        } else {
            self.bad_edge(u, k + 1)
        }
    }
}

/// The message for an irreducible graph.
pub open spec fn irreducible(e: (usize, usize)) -> Seq<u8> {
    utf8("irreducible CFG: back edge ") + decimal(e.0 as nat) + utf8(" -> ") + decimal(e.1 as nat)
}

/// The picture of a plan for a graph.
#[verifier::ext_equal]
pub struct PlanV {
    /// The position of every block in reverse postorder.
    pub pos: Seq<usize>,
    /// The immediate dominator of every block.
    pub idom: Seq<usize>,
    /// The blocks that each block dominates immediately, in order.
    pub children: Seq<Seq<usize>>,
    pub header: Seq<bool>,
    pub merge: Seq<bool>,
}

impl PlanV {
    /// Whether this is the plan for `g`.
    pub open spec fn is_for(self, g: CfgV) -> bool {
        &&& self.pos == g.positions()
        &&& is_positions(g, self.pos)
        &&& are_idoms(g, self.pos, self.idom)
        &&& self.children.len() == g.n()
        &&& forall|x: int|
            0 <= x < g.n() ==> #[trigger] self.children[x] == dominated(
                g.rpo(),
                self.idom,
                x,
                g.n(),
            )
        &&& self.header.len() == g.n()
        &&& forall|v: int|
            0 <= v < g.n() ==> #[trigger] self.header[v] == exists|u: int|
                #[trigger] g.edge(u, v) && g.goes_back(u, v)
        &&& self.merge.len() == g.n()
        &&& forall|v: int|
            0 <= v < g.n() ==> #[trigger] self.merge[v] == (forward_preds(
                g.preds[v],
                self.pos,
                v,
                g.preds[v].len() as int,
            ) >= 2)
    }

    /// The number of blocks.
    pub open spec fn n(self) -> nat {
        self.pos.len()
    }

    /// Whether all lists have an entry per block, and the blocks that a block dominates
    /// come after it.
    pub open spec fn wf(self) -> bool {
        &&& self.n() <= usize::MAX
        &&& self.idom.len() == self.n()
        &&& self.children.len() == self.n()
        &&& self.header.len() == self.n()
        &&& self.merge.len() == self.n()
        &&& forall|x: int| 0 <= x < self.n() ==> #[trigger] self.pos[x] < self.n()
        &&& forall|x: int, i: int|
            #![trigger self.children[x][i]]
            0 <= x < self.n() && 0 <= i < self.children[x].len() ==> self.children[x][i] < self.n()
                && self.pos[x] < self.pos[self.children[x][i] as int]
    }

    /// The merges that `x` dominates immediately.
    pub open spec fn merges(self, x: int) -> Seq<usize> {
        merges_of(self.children[x], self.merge, self.children[x].len() as int)
    }

    /// How far `x` is from the end of the order.
    pub open spec fn rank(self, x: int) -> nat {
        if 0 <= x < self.n() && self.pos[x] <= self.n() {
            (self.n() - self.pos[x]) as nat
        } else {
            0
        }
    }
}

/// The depth of the innermost frame `f` among the first `k`.
pub open spec fn depth(frames: Seq<Frame>, f: Frame, k: int) -> Option<int>
    decreases k,
{
    if k <= 0 || k > frames.len() {
        None
    } else if frames[k - 1] == f {
        Some(frames.len() - k)
    } else {
        depth(frames, f, k - 1)
    }
}

/// The outcome of a part of the walk: its events, and whether it succeeded.
pub type Walk = (Seq<Event>, Result<(), Seq<u8>>);

/// One part of a walk after another, which is left out where the first failed.
pub open spec fn and_next(a: Walk, b: Walk) -> Walk {
    match a.1 {
        Ok(_) => (a.0 + b.0, b.1),
        Err(m) => a,
    }
}

/// A single event as a part of a walk.
pub open spec fn one(ev: Event) -> Walk {
    (seq![ev], Ok(()))
}

/// A failure: a branch to a block without a frame.
pub open spec fn no_frame() -> Walk {
    (Seq::empty(), Err(utf8("branch target not on the frame stack")))
}

impl PlanV {
    /// A branch out of the frame `f`.
    pub open spec fn leave(self, frames: Seq<Frame>, f: Frame) -> Walk {
        match depth(frames, f, frames.len() as int) {
            Some(d) => one(Event::Br((d as usize) as u32)),
            None => no_frame(),
        }
    }

    /// The part of the dominator tree below `x`.
    pub open spec fn tree(self, terms: Seq<Term>, frames: Seq<Frame>, x: int) -> Walk
        decreases self.rank(x), 2int, 0int,
    {
        let k = self.merges(x).len() as int;
        if self.header[x] {
            and_next(
                one(Event::OpenLoop(x as usize)),
                and_next(
                    self.node(terms, frames.push(Frame::Loop(x as usize)), x, k),
                    one(Event::Close),
                ),
            )
        } else {
            self.node(terms, frames, x, k)
        }
    }

    /// The block `x` within the frames of its first `k` merges.
    pub open spec fn node(self, terms: Seq<Term>, frames: Seq<Frame>, x: int, k: int) -> Walk
        decreases self.rank(x), 1int, k,
    {
        if 0 < k <= self.merges(x).len() {
            let last = self.merges(x)[k - 1];
            and_next(
                one(Event::OpenBlock(last)),
                and_next(
                    self.node(terms, frames.push(Frame::Block(last)), x, k - 1),
                    and_next(
                        one(Event::Close),
                        if self.rank(last as int) < self.rank(x) {
                            self.tree(terms, frames, last as int)
                        } else {
                            no_frame()
                        },
                    ),
                ),
            )
        } else {
            and_next(
                one(Event::Stmts(x as usize)),
                match terms[x] {
                    Term::If { then_, else_ } => and_next(
                        one(Event::OpenIf(x as usize)),
                        and_next(
                            self.branch(terms, frames.push(Frame::If), x, then_ as int),
                            and_next(
                                one(Event::ElseArm),
                                and_next(
                                    self.branch(terms, frames.push(Frame::If), x, else_ as int),
                                    one(Event::Close),
                                ),
                            ),
                        ),
                    ),
                    Term::Goto(t) => self.branch(terms, frames, x, t as int),
                    Term::Return => one(Event::Ret(x as usize)),
                },
            )
        }
    }

    /// The branch from `x` to `t`.
    pub open spec fn branch(self, terms: Seq<Term>, frames: Seq<Frame>, x: int, t: int) -> Walk
        decreases self.rank(x), 0int, 0int,
    {
        and_next(
            one(Event::PhiMoves(x as usize, t as usize)),
            if self.pos[t] <= self.pos[x] {
                self.leave(frames, Frame::Loop(t as usize))
            } else if self.merge[t] {
                self.leave(frames, Frame::Block(t as usize))
            } else if self.rank(t) < self.rank(x) {
                self.tree(terms, frames, t)
            } else {
                no_frame()
            },
        )
    }

    /// The walk of the whole graph.
    pub open spec fn walk(self, terms: Seq<Term>) -> Walk {
        self.tree(terms, Seq::empty(), 0)
    }
}

/// A plan for a graph.
pub struct Relooper {
    pos: Vec<usize>,
    idom: Vec<usize>,
    dom_children: Vec<Vec<usize>>,
    is_loop_header: Vec<bool>,
    is_merge: Vec<bool>,
}

impl View for Relooper {
    type V = PlanV;

    closed spec fn view(&self) -> PlanV {
        PlanV {
            pos: self.pos@,
            idom: self.idom@,
            children: crate::graph::lists(self.dom_children@),
            header: self.is_loop_header@,
            merge: self.is_merge@,
        }
    }
}

/// The place of a listed block.
proof fn lemma_place(order: Seq<usize>, b: int, i: int, k: int)
    requires
        0 <= i <= k < order.len(),
        order[k] == b,
        forall|j: int| i <= j < k ==> order[j] != b,
    ensures
        place(order, b, i) == k,
    decreases k - i,
{
    if i < k {
        lemma_place(order, b, i + 1, k);
    }
}

/// There is one way to number the blocks.
proof fn lemma_positions(g: CfgV, pos: Seq<usize>)
    requires
        g.wf(),
        is_positions(g, pos),
    ensures
        pos == g.positions(),
{
    law_rpo(g);
    assert forall|b: int| 0 <= b < g.n() implies pos[b] == g.positions()[b] by {
        let k = pos[b] as int;
        assert(g.rpo()[k] == b);
        assert forall|j: int| 0 <= j < k implies g.rpo()[j] != b by {
            assert(g.rpo()[j] != g.rpo()[k]);
        }
        lemma_place(g.rpo(), b, 0, k);
    }
    assert(pos =~= g.positions());
}

/// Whether an edge before successor number `k` of block `u` goes back to `v`.
spec fn back_edge_before(g: CfgV, v: int, u: int, k: int) -> bool {
    exists|a: int, m: int|
        0 <= a < g.n() && 0 <= m < g.succs[a].len() && (a < u || (a == u && m < k)) && (
        #[trigger] g.succs[a][m]) == v && g.goes_back(a, v)
}

/// Marks the targets of the back edges of block `u`; gives the first that does not
/// dominate it.
fn mark_headers(
    cfg: &Cfg,
    pos: &Vec<usize>,
    idom: &Vec<usize>,
    header: &mut Vec<bool>,
    u: usize,
) -> (r: Option<(usize, usize)>)
    requires
        cfg@.wf(),
        is_positions(cfg@, pos@),
        pos@ == cfg@.positions(),
        are_idoms(cfg@, pos@, idom@),
        u < cfg@.n(),
        old(header).len() == cfg@.n(),
        forall|v: int|
            0 <= v < cfg@.n() ==> #[trigger] old(header)@[v] == back_edge_before(cfg@, v, u as int, 0),
    ensures
        final(header).len() == cfg@.n(),
        match r {
            Some(e) => cfg@.bad_edge(u as int, 0) == Some(e),
            None => cfg@.bad_edge(u as int, 0) == cfg@.bad_edge(u + 1, 0) && forall|v: int|
                0 <= v < cfg@.n() ==> #[trigger] final(header)@[v] == back_edge_before(
                    cfg@,
                    v,
                    u + 1,
                    0,
                ),
        },
{
    let ghost g = cfg@;
    assert(g.succs[u as int] == cfg.succs@[u as int]@);
    let mut k: usize = 0;
    while k < cfg.succs[u].len()
        invariant
            g == cfg@,
            g.wf(),
            is_positions(g, pos@),
            pos@ == g.positions(),
            are_idoms(g, pos@, idom@),
            u < g.n(),
            u < cfg.succs.len(),
            g.succs[u as int] == cfg.succs@[u as int]@,
            k <= cfg.succs@[u as int].len(),
            header.len() == g.n(),
            g.bad_edge(u as int, 0) == g.bad_edge(u as int, k as int),
            forall|v: int|
                0 <= v < g.n() ==> #[trigger] header@[v] == back_edge_before(
                    g,
                    v,
                    u as int,
                    k as int,
                ),
        decreases cfg.succs@[u as int].len() - k,
    {
        let v: usize = cfg.succs[u][k];
        let ghost before = header@;
        assert(v == g.succs[u as int][k as int]);
        if pos[v] <= pos[u] {
            if !dominates(cfg, idom, pos, v, u) {
                return Some((u, v));
            }
            header.set(v, true);
        }
        proof {
            assert forall|w: int| 0 <= w < g.n() implies #[trigger] header@[w] == back_edge_before(
                g,
                w,
                u as int,
                k + 1,
            ) by {
                assert(before[w] == back_edge_before(g, w, u as int, k as int));
                if header@[w] && !before[w] {
                    assert(w == v && g.succs[u as int][k as int] == w && g.goes_back(u as int, w));
                }
                if back_edge_before(g, w, u as int, k as int) {
                    let (a, m) = choose|a: int, m: int|
                        0 <= a < g.n() && 0 <= m < g.succs[a].len() && (a < u || (a == u && m < k))
                            && (#[trigger] g.succs[a][m]) == w && g.goes_back(a, w);
                    assert(g.succs[a][m] == w);
                }
                if back_edge_before(g, w, u as int, k + 1) {
                    let (a, m) = choose|a: int, m: int|
                        0 <= a < g.n() && 0 <= m < g.succs[a].len() && (a < u || (a == u && m < k
                            + 1)) && (#[trigger] g.succs[a][m]) == w && g.goes_back(a, w);
                    if !(a == u && m == k) {
                        assert(g.succs[a][m] == w);
                        assert(back_edge_before(g, w, u as int, k as int));
                    }
                }
            }
        }
        k = k + 1;
    }
    proof {
        assert forall|w: int| 0 <= w < g.n() implies #[trigger] header@[w] == back_edge_before(
            g,
            w,
            u + 1,
            0,
        ) by {
            assert(header@[w] == back_edge_before(g, w, u as int, k as int));
            if back_edge_before(g, w, u as int, k as int) {
                let (a, m) = choose|a: int, m: int|
                    0 <= a < g.n() && 0 <= m < g.succs[a].len() && (a < u || (a == u && m < k)) && (
                    #[trigger] g.succs[a][m]) == w && g.goes_back(a, w);
                assert(g.succs[a][m] == w);
            }
            if back_edge_before(g, w, u + 1, 0) {
                let (a, m) = choose|a: int, m: int|
                    0 <= a < g.n() && 0 <= m < g.succs[a].len() && (a < u + 1 || (a == u + 1 && m
                        < 0)) && (#[trigger] g.succs[a][m]) == w && g.goes_back(a, w);
                assert(g.succs[a][m] == w);
            }
        }
    }
    None
}

/// The targets of back edges, or the first that does not dominate its source.
fn find_headers(cfg: &Cfg, pos: &Vec<usize>, idom: &Vec<usize>) -> (r: Result<
    Vec<bool>,
    (usize, usize),
>)
    requires
        cfg@.wf(),
        is_positions(cfg@, pos@),
        pos@ == cfg@.positions(),
        are_idoms(cfg@, pos@, idom@),
    ensures
        match r {
            Err(e) => cfg@.bad_edge(0, 0) == Some(e),
            Ok(h) => cfg@.bad_edge(0, 0) is None && h.len() == cfg@.n() && forall|v: int|
                0 <= v < cfg@.n() ==> #[trigger] h@[v] == exists|u: int|
                    #[trigger] cfg@.edge(u, v) && cfg@.goes_back(u, v),
        },
{
    let ghost g = cfg@;
    let n: usize = cfg.succs.len();
    let mut header: Vec<bool> = Vec::new();
    let mut k: usize = 0;
    while k < n
        invariant
            k <= n,
            header.len() == k,
            forall|v: int| 0 <= v < k ==> !header@[v],
        decreases n - k,
    {
        header.push(false);
        k = k + 1;
    }
    let mut u: usize = 0;
    assert forall|v: int| 0 <= v < g.n() implies #[trigger] header@[v] == back_edge_before(
        g,
        v,
        0,
        0,
    ) by {}
    while u < n
        invariant
            u <= n,
            n == g.n(),
            g == cfg@,
            g.wf(),
            is_positions(g, pos@),
            pos@ == g.positions(),
            are_idoms(g, pos@, idom@),
            header.len() == n,
            g.bad_edge(0, 0) == g.bad_edge(u as int, 0),
            forall|v: int|
                0 <= v < g.n() ==> #[trigger] header@[v] == back_edge_before(g, v, u as int, 0),
        decreases n - u,
    {
        match mark_headers(cfg, pos, idom, &mut header, u) {
            Some(e) => {
                return Err(e);
            },
            None => {},
        }
        u = u + 1;
    }
    proof {
        assert forall|v: int| 0 <= v < g.n() implies #[trigger] header@[v] == exists|u: int|
            #[trigger] g.edge(u, v) && g.goes_back(u, v) by {
            if header@[v] {
                let (a, m) = choose|a: int, m: int|
                    0 <= a < g.n() && 0 <= m < g.succs[a].len() && (a < n || (a == n && m < 0)) && (
                    #[trigger] g.succs[a][m]) == v && g.goes_back(a, v);
                assert(g.succs[a][m] == v as usize);
                assert(g.edge(a, v));
            }
            if exists|u: int| #[trigger] g.edge(u, v) && g.goes_back(u, v) {
                let a = choose|u: int| #[trigger] g.edge(u, v) && g.goes_back(u, v);
                let m = choose|m: int| 0 <= m < g.succs[a].len() && g.succs[a][m] == v as usize;
                assert(g.succs[a][m] == v);
                assert(back_edge_before(g, v, n as int, 0));
            }
        }
    }
    Ok(header)
}

/// The blocks with two or more forward edges.
fn find_merges(cfg: &Cfg, pos: &Vec<usize>) -> (r: Vec<bool>)
    requires
        cfg@.wf(),
        pos.len() == cfg@.n(),
    ensures
        r.len() == cfg@.n(),
        forall|v: int|
            0 <= v < cfg@.n() ==> #[trigger] r@[v] == (forward_preds(
                cfg@.preds[v],
                pos@,
                v,
                cfg@.preds[v].len() as int,
            ) >= 2),
{
    let ghost g = cfg@;
    let n: usize = cfg.succs.len();
    let mut merge: Vec<bool> = Vec::new();
    let mut v: usize = 0;
    while v < n
        invariant
            v <= n,
            n == g.n(),
            g == cfg@,
            g.wf(),
            pos.len() == n,
            merge.len() == v,
            forall|x: int|
                0 <= x < v ==> #[trigger] merge@[x] == (forward_preds(
                    g.preds[x],
                    pos@,
                    x,
                    g.preds[x].len() as int,
                ) >= 2),
        decreases n - v,
    {
        assert(g.preds[v as int] == cfg.preds@[v as int]@);
        let mut count: usize = 0;
        let mut k: usize = 0;
        while k < cfg.preds[v].len()
            invariant
                n == g.n(),
                g == cfg@,
                g.wf(),
                pos.len() == n,
                v < n,
                v < cfg.preds.len(),
                g.preds[v as int] == cfg.preds@[v as int]@,
                k <= cfg.preds@[v as int].len(),
                count <= k,
                count == forward_preds(g.preds[v as int], pos@, v as int, k as int),
            decreases cfg.preds@[v as int].len() - k,
        {
            let p: usize = cfg.preds[v][k];
            assert(p == g.preds[v as int][k as int]);
            if pos[p] < pos[v] {
                count = count + 1;
            }
            k = k + 1;
        }
        merge.push(count >= 2);
        v = v + 1;
    }
    merge
}

/// The blocks that `x` dominates immediately.
fn children_of(order: &Vec<usize>, idom: &Vec<usize>, x: usize) -> (r: Vec<usize>)
    requires
        forall|i: int| 0 <= i < order.len() ==> #[trigger] order@[i] < idom.len(),
    ensures
        r@ == dominated(order@, idom@, x as int, order.len() as int),
{
    let mut r: Vec<usize> = Vec::new();
    let mut k: usize = 0;
    assert(r@ =~= dominated(order@, idom@, x as int, 0));
    while k < order.len()
        invariant
            k <= order.len(),
            forall|i: int| 0 <= i < order.len() ==> #[trigger] order@[i] < idom.len(),
            r@ == dominated(order@, idom@, x as int, k as int),
        decreases order.len() - k,
    {
        let b: usize = order[k];
        if b != 0 && idom[b] == x {
            r.push(b);
        }
        k = k + 1;
    }
    r
}

/// The blocks that each block dominates immediately, in order.
fn find_children(order: &Vec<usize>, idom: &Vec<usize>) -> (r: Vec<Vec<usize>>)
    requires
        order.len() == idom.len(),
        forall|i: int| 0 <= i < order.len() ==> #[trigger] order@[i] < idom.len(),
    ensures
        r.len() == idom.len(),
        forall|x: int|
            0 <= x < r.len() ==> (#[trigger] r@[x])@ == dominated(
                order@,
                idom@,
                x,
                order.len() as int,
            ),
{
    let mut r: Vec<Vec<usize>> = Vec::new();
    let mut x: usize = 0;
    while x < idom.len()
        invariant
            x <= idom.len(),
            order.len() == idom.len(),
            forall|i: int| 0 <= i < order.len() ==> #[trigger] order@[i] < idom.len(),
            r.len() == x,
            forall|y: int|
                0 <= y < x ==> (#[trigger] r@[y])@ == dominated(
                    order@,
                    idom@,
                    y,
                    order.len() as int,
                ),
        decreases idom.len() - x,
    {
        r.push(children_of(order, idom, x));
        x = x + 1;
    }
    r
}

/// Dominated blocks are listed and have the right dominator.
proof fn lemma_dominated(order: Seq<usize>, idom: Seq<usize>, x: int, k: int, i: int)
    requires
        0 <= k <= order.len(),
        0 <= i < dominated(order, idom, x, k).len(),
    ensures
        order.contains(dominated(order, idom, x, k)[i]),
        dominated(order, idom, x, k)[i] != 0,
        idom[dominated(order, idom, x, k)[i] as int] == x,
    decreases k,
{
    let before = dominated(order, idom, x, k - 1);
    if order[k - 1] != 0 && idom[order[k - 1] as int] == x && i == before.len() {
    } else {
        lemma_dominated(order, idom, x, k - 1, i);
    }
}

/// A plan for a graph has its lists in order.
proof fn lemma_plan(g: CfgV, plan: PlanV)
    requires
        g.wf(),
        plan.is_for(g),
    ensures
        plan.wf(),
{
    law_rpo(g);
    assert forall|x: int, i: int|
        #![trigger plan.children[x][i]]
        0 <= x < plan.n() && 0 <= i < plan.children[x].len() implies plan.children[x][i] < plan.n()
        && plan.pos[x] < plan.pos[plan.children[x][i] as int] by {
        assert(plan.children[x] == dominated(g.rpo(), plan.idom, x, g.n()));
        lemma_dominated(g.rpo(), plan.idom, x, g.n(), i);
        let b = plan.children[x][i];
        let j = choose|j: int| 0 <= j < g.rpo().len() && g.rpo()[j] == b;
        assert(g.rpo()[j] < g.n());
        assert(crate::graph::is_idom(g, plan.pos, plan.idom[b as int] as int, b as int));
        law_dominators_come_first(g, plan.pos, x, b as int);
    }
}

impl Relooper {
    /// Plans a graph. The blocks must all be reachable, and every back edge must go to
    /// a block that dominates its source.
    pub fn new(cfg: &Cfg) -> (r: Result<Relooper, Vec<u8>>)
        requires
            cfg@.wf(),
        ensures
            match r {
                Ok(plan) => cfg@.rpo().len() == cfg@.n() && cfg@.bad_edge(0, 0) is None
                    && plan@.is_for(cfg@) && plan@.wf(),
                Err(m) => if cfg@.rpo().len() != cfg@.n() {
                    m@ == utf8("unreachable blocks in CFG")
                } else {
                    cfg@.bad_edge(0, 0) is Some && m@ == irreducible(cfg@.bad_edge(0, 0)->0)
                },
            },
    {
        let ghost g = cfg@;
        let order: Vec<usize> = rpo(cfg);
        if order.len() != cfg.succs.len() {
            return Err(text("unreachable blocks in CFG"));
        }
        let pos: Vec<usize> = positions(cfg, &order);
        let idom: Vec<usize> = idoms(cfg, &pos);
        proof {
            lemma_positions(g, pos@);
            law_rpo(g);
        }
        let header: Vec<bool> = match find_headers(cfg, &pos, &idom) {
            Ok(h) => h,
            Err(e) => {
                let mut m: Vec<u8> = text("irreducible CFG: back edge ");
                let d0: Vec<u8> = decimal_text(e.0 as u64);
                push_bytes(&mut m, d0.as_slice());
                push_text(&mut m, " -> ");
                let d1: Vec<u8> = decimal_text(e.1 as u64);
                push_bytes(&mut m, d1.as_slice());
                return Err(m);
            },
        };
        let merge: Vec<bool> = find_merges(cfg, &pos);
        let children: Vec<Vec<usize>> = find_children(&order, &idom);
        let plan: Relooper = Relooper {
            pos,
            idom,
            dom_children: children,
            is_loop_header: header,
            is_merge: merge,
        };
        proof {
            assert forall|x: int| 0 <= x < g.n() implies #[trigger] plan@.children[x] == dominated(
                g.rpo(),
                plan@.idom,
                x,
                g.n(),
            ) by {
                assert(plan@.children[x] == children@[x]@);
            }
            assert(plan@.is_for(g));
            lemma_plan(g, plan@);
        }
        Ok(plan)
    }
}

/// Whether a part of a walk had its effect on `e`: `v` is the picture before it.
spec fn walked<E: Emit>(v: E::V, e: E, n: nat, w: Walk, r: Result<(), Vec<u8>>) -> bool {
    &&& e.ok()
    &&& e.blocks() == n
    &&& e.state() == play::<E>(v, w.0)
    &&& told(r) == w.1
}

/// The effect of an event after those of `a`.
proof fn lemma_then<E: Emit>(v: E::V, a: Seq<Event>, ev: Event)
    ensures
        E::next(play::<E>(v, a), ev) == play::<E>(v, a + seq![ev]),
{
    lemma_play_one::<E>(play::<E>(v, a), ev);
    lemma_play::<E>(v, a, seq![ev]);
}

/// The depth of the innermost frame `f`.
fn depth_of(frames: &Vec<Frame>, f: Frame) -> (r: Result<u32, Vec<u8>>)
    ensures
        told(r) == match depth(frames@, f, frames.len() as int) {
            Some(d) => Ok::<u32, Seq<u8>>((d as usize) as u32),
            None => Err(utf8("branch target not on the frame stack")),
        },
{
    let mut k: usize = frames.len();
    while k > 0
        invariant
            k <= frames.len(),
            depth(frames@, f, frames.len() as int) == depth(frames@, f, k as int),
        decreases k,
    {
        if frames[k - 1] == f {
            return Ok((frames.len() - k) as u32);
        }
        k = k - 1;
    }
    Err(text("branch target not on the frame stack"))
}

impl Relooper {
    /// Emits a branch out of the frame `f`.
    fn leave<E: Emit>(&self, frames: &Vec<Frame>, f: Frame, e: &mut E) -> (r: Result<(), Vec<u8>>)
        requires
            old(e).ok(),
        ensures
            walked(
                old(e).state(),
                *final(e),
                old(e).blocks(),
                self@.leave(frames@, f),
                r,
            ),
    {
        match depth_of(frames, f) {
            Ok(d) => {
                let ghost v = e.state();
                e.br(d);
                proof {
                    lemma_play_one::<E>(v, Event::Br(d));
                }
                Ok(())
            },
            Err(m) => Err(m),
        }
    }

    /// The merges that `x` dominates immediately.
    fn merges(&self, x: usize) -> (r: Vec<usize>)
        requires
            self@.wf(),
            x < self@.n(),
        ensures
            r@ == self@.merges(x as int),
    {
        let list: &Vec<usize> = &self.dom_children[x];
        let ghost plan = self@;
        assert(plan.children[x as int] == list@);
        let mut r: Vec<usize> = Vec::new();
        let mut k: usize = 0;
        assert(r@ =~= merges_of(list@, plan.merge, 0));
        while k < list.len()
            invariant
                plan == self@,
                plan.wf(),
                x < plan.n(),
                plan.children[x as int] == list@,
                k <= list.len(),
                r@ == merges_of(list@, plan.merge, k as int),
            decreases list.len() - k,
        {
            let c: usize = list[k];
            assert(c == plan.children[x as int][k as int]);
            if self.is_merge[c] {
                r.push(c);
            }
            k = k + 1;
        }
        r
    }

    /// Emits the part of the dominator tree below `x`.
    fn do_tree<E: Emit>(
        &self,
        frames: &mut Vec<Frame>,
        x: usize,
        e: &mut E,
        terms: &Vec<Term>,
    ) -> (r: Result<(), Vec<u8>>)
        requires
            self@.wf(),
            x < self@.n(),
            terms_fit(terms@, self@.n()),
            old(e).ok(),
            old(e).blocks() == self@.n(),
        ensures
            walked(
                old(e).state(),
                *final(e),
                self@.n(),
                self@.tree(terms@, old(frames)@, x as int),
                r,
            ),
            r is Ok ==> final(frames)@ == old(frames)@,
        decreases self@.rank(x as int), 2int, 0int,
    {
        let merges: Vec<usize> = self.merges(x);
        let ghost v = e.state();
        let ghost f0 = frames@;
        let ghost plan = self@;
        if self.is_loop_header[x] {
            frames.push(Frame::Loop(x));
            e.open_loop(x);
            let ghost v1 = e.state();
            let ghost w = plan.node(terms@, f0.push(Frame::Loop(x)), x as int, merges.len() as int);
            proof {
                lemma_play_one::<E>(v, Event::OpenLoop(x));
            }
            match self.node_within(frames, x, &merges, merges.len(), e, terms) {
                Err(m) => {
                    proof {
                        lemma_play::<E>(v, seq![Event::OpenLoop(x)], w.0);
                    }
                    return Err(m);
                },
                Ok(_) => {},
            }
            proof {
                lemma_then::<E>(v1, w.0, Event::Close);
                lemma_play::<E>(v, seq![Event::OpenLoop(x)], w.0 + seq![Event::Close]);
            }
            e.close();
            frames.pop();
            assert(frames@ =~= f0);
            Ok(())
        } else {
            self.node_within(frames, x, &merges, merges.len(), e, terms)
        }
    }

    /// Emits the block `x` within the frames of its first `k` merges.
    #[verifier::rlimit(60)]
    fn node_within<E: Emit>(
        &self,
        frames: &mut Vec<Frame>,
        x: usize,
        merges: &Vec<usize>,
        k: usize,
        e: &mut E,
        terms: &Vec<Term>,
    ) -> (r: Result<(), Vec<u8>>)
        requires
            self@.wf(),
            x < self@.n(),
            terms_fit(terms@, self@.n()),
            merges@ == self@.merges(x as int),
            k <= merges.len(),
            old(e).ok(),
            old(e).blocks() == self@.n(),
        ensures
            walked(
                old(e).state(),
                *final(e),
                self@.n(),
                self@.node(terms@, old(frames)@, x as int, k as int),
                r,
            ),
            r is Ok ==> final(frames)@ == old(frames)@,
        decreases self@.rank(x as int), 1int, k,
    {
        let ghost v = e.state();
        let ghost f0 = frames@;
        let ghost plan = self@;
        if k > 0 {
            let last: usize = merges[k - 1];
            proof {
                lemma_merge_comes_later(plan, x as int, k - 1);
            }
            frames.push(Frame::Block(last));
            e.open_block(last);
            let ghost a0 = seq![Event::OpenBlock(last)];
            let ghost v1 = e.state();
            let ghost w1 = plan.node(terms@, f0.push(Frame::Block(last)), x as int, k - 1);
            proof {
                lemma_play_one::<E>(v, Event::OpenBlock(last));
            }
            match self.node_within(frames, x, merges, k - 1, e, terms) {
                Err(m) => {
                    proof {
                        lemma_play::<E>(v, a0, w1.0);
                    }
                    return Err(m);
                },
                Ok(_) => {},
            }
            proof {
                lemma_then::<E>(v1, w1.0, Event::Close);
            }
            e.close();
            let ghost v2 = e.state();
            frames.pop();
            assert(frames@ =~= f0);
            let ghost w2 = plan.tree(terms@, f0, last as int);
            let r: Result<(), Vec<u8>> = self.do_tree(frames, last, e, terms);
            proof {
                let mid = seq![Event::Close] + w2.0;
                lemma_play::<E>(v1, w1.0 + seq![Event::Close], w2.0);
                assert(w1.0 + seq![Event::Close] + w2.0 =~= w1.0 + mid);
                lemma_play::<E>(v, a0, w1.0 + mid);
            }
            r
        } else {
            e.stmts(x);
            let ghost a0 = seq![Event::Stmts(x)];
            let ghost v1 = e.state();
            proof {
                lemma_play_one::<E>(v, Event::Stmts(x));
            }
            let t: Term = terms[x];
            match t {
                Term::If { then_, else_ } => {
                    e.open_if(x);
                    let ghost v2 = e.state();
                    frames.push(Frame::If);
                    let ghost fi = f0.push(Frame::If);
                    let ghost w1 = plan.branch(terms@, fi, x as int, then_ as int);
                    let ghost w2 = plan.branch(terms@, fi, x as int, else_ as int);
                    let ghost b0 = seq![Event::OpenIf(x)];
                    proof {
                        lemma_play_one::<E>(v1, Event::OpenIf(x));
                    }
                    match self.do_branch(frames, x, then_, e, terms) {
                        Err(m) => {
                            proof {
                                lemma_play::<E>(v1, b0, w1.0);
                                lemma_play::<E>(v, a0, b0 + w1.0);
                            }
                            return Err(m);
                        },
                        Ok(_) => {},
                    }
                    proof {
                        lemma_then::<E>(v2, w1.0, Event::ElseArm);
                    }
                    e.else_arm();
                    let ghost v3 = e.state();
                    let ghost c0 = seq![Event::ElseArm];
                    match self.do_branch(frames, x, else_, e, terms) {
                        Err(m) => {
                            proof {
                                lemma_play::<E>(v2, w1.0 + c0, w2.0);
                                assert(w1.0 + c0 + w2.0 =~= w1.0 + (c0 + w2.0));
                                lemma_play::<E>(v1, b0, w1.0 + (c0 + w2.0));
                                lemma_play::<E>(v, a0, b0 + (w1.0 + (c0 + w2.0)));
                            }
                            return Err(m);
                        },
                        Ok(_) => {},
                    }
                    proof {
                        lemma_then::<E>(v3, w2.0, Event::Close);
                        let d0 = w2.0 + seq![Event::Close];
                        lemma_play::<E>(v2, w1.0 + c0, d0);
                        assert(w1.0 + c0 + d0 =~= w1.0 + (c0 + d0));
                        lemma_play::<E>(v1, b0, w1.0 + (c0 + d0));
                        lemma_play::<E>(v, a0, b0 + (w1.0 + (c0 + d0)));
                    }
                    e.close();
                    frames.pop();
                    assert(frames@ =~= f0);
                    Ok(())
                },
                Term::Goto(target) => {
                    let ghost w1 = plan.branch(terms@, f0, x as int, target as int);
                    proof {
                        lemma_play::<E>(v, a0, w1.0);
                    }
                    self.do_branch(frames, x, target, e, terms)
                },
                Term::Return => {
                    e.ret(x);
                    proof {
                        lemma_play_one::<E>(v1, Event::Ret(x));
                        lemma_play::<E>(v, a0, seq![Event::Ret(x)]);
                    }
                    Ok(())
                },
            }
        }
    }

    /// Emits the branch from `x` to `target`.
    fn do_branch<E: Emit>(
        &self,
        frames: &mut Vec<Frame>,
        x: usize,
        target: usize,
        e: &mut E,
        terms: &Vec<Term>,
    ) -> (r: Result<(), Vec<u8>>)
        requires
            self@.wf(),
            x < self@.n(),
            target < self@.n(),
            terms_fit(terms@, self@.n()),
            old(e).ok(),
            old(e).blocks() == self@.n(),
        ensures
            walked(
                old(e).state(),
                *final(e),
                self@.n(),
                self@.branch(terms@, old(frames)@, x as int, target as int),
                r,
            ),
            r is Ok ==> final(frames)@ == old(frames)@,
        decreases self@.rank(x as int), 0int, 0int,
    {
        let ghost v = e.state();
        let ghost plan = self@;
        let ghost f0 = frames@;
        let ghost a0 = seq![Event::PhiMoves(x, target)];
        e.phi_moves(x, target);
        proof {
            lemma_play_one::<E>(v, Event::PhiMoves(x, target));
            assert(plan.pos[x as int] < plan.n() && plan.pos[target as int] < plan.n());
        }
        if self.pos[target] <= self.pos[x] {
            proof {
                lemma_play::<E>(v, a0, plan.leave(f0, Frame::Loop(target)).0);
            }
            self.leave(frames, Frame::Loop(target), e)
        } else if self.is_merge[target] {
            proof {
                lemma_play::<E>(v, a0, plan.leave(f0, Frame::Block(target)).0);
            }
            self.leave(frames, Frame::Block(target), e)
        } else {
            proof {
                lemma_play::<E>(v, a0, plan.tree(terms@, f0, target as int).0);
            }
            self.do_tree(frames, target, e, terms)
        }
    }

    /// Walks the whole graph. `terms` tells how each block ends.
    pub fn run<E: Emit>(&self, e: &mut E, terms: &Vec<Term>) -> (r: Result<(), Vec<u8>>)
        requires
            self@.wf(),
            self@.n() > 0,
            terms_fit(terms@, self@.n()),
            old(e).ok(),
            old(e).blocks() == self@.n(),
        ensures
            final(e).ok(),
            final(e).blocks() == old(e).blocks(),
            final(e).state() == play::<E>(old(e).state(), self@.walk(terms@).0),
            told(r) == self@.walk(terms@).1,
    {
        let mut frames: Vec<Frame> = Vec::new();
        assert(frames@ =~= Seq::<Frame>::empty());
        self.do_tree(&mut frames, 0, e, terms)
    }
}

/// A merge comes after the block that dominates it.
proof fn lemma_merge_comes_later(plan: PlanV, x: int, i: int)
    requires
        plan.wf(),
        0 <= x < plan.n(),
        0 <= i < plan.merges(x).len(),
    ensures
        plan.merges(x)[i] < plan.n(),
        plan.rank(plan.merges(x)[i] as int) < plan.rank(x),
{
    lemma_merges_listed(plan.children[x], plan.merge, plan.children[x].len() as int, i);
    let c = plan.merges(x)[i];
    let j = choose|j: int| 0 <= j < plan.children[x].len() && plan.children[x][j] == c;
    assert(plan.pos[x] < plan.pos[plan.children[x][j] as int]);
    assert(plan.pos[c as int] < plan.n());
}

/// Merges are listed.
proof fn lemma_merges_listed(list: Seq<usize>, merge: Seq<bool>, k: int, i: int)
    requires
        0 <= k <= list.len(),
        0 <= i < merges_of(list, merge, k).len(),
    ensures
        list.contains(merges_of(list, merge, k)[i]),
    decreases k,
{
    let before = merges_of(list, merge, k - 1);
    if merge[list[k - 1] as int] && i == before.len() {
    } else {
        lemma_merges_listed(list, merge, k - 1, i);
    }
}

} // verus!
