//! What full collections do, one after the other.
//!
//! An object that is marked from an earlier cycle is taken for live, though no root
//! may reach it any more. A full collection takes all marks back, so that the next one
//! goes by the roots alone.

use vstd::prelude::*;
use crate::gc::Sweep;
use crate::health::{lemma_collect_healthy, lemma_kept_good, lemma_reaches_ends, like, roots_kept};
use crate::state::State;
use crate::survival::{
    law_garbage_is_reclaimed, law_survivors_are_promoted, lemma_collect_frame, lemma_mark,
    lemma_mark_old, lemma_marked_kept, lemma_sweep_ok,
};

verus! {

/// A full collection leaves no object remembered and none marked, and every object
/// that it keeps is old.
#[verifier::spinoff_prover]
pub proof fn law_full_collection_takes_marks(s: State, v: u32)
    requires
        s.heap_ok(),
    ensures
        s.collect(true).remembered.len() == 0,
        !s.collect(true).is_marked(v),
        s.collect(true).obj(v) is Some ==> s.collect(true).gc_bits(v) == 2,
{
    lemma_mark(s);
    lemma_mark_old(s);
    let m = s.mark();
    let n = m.pages.len() as int;
    let acc0 = Sweep { survivors: 0, live_bytes: 0, promoted: 0, walked: 0 };
    lemma_sweep_ok(m, 0, n, true, acc0);
    reveal(State::sweep);
    reveal(State::collect);
    let p = m.sweep_pages(0, n, true, acc0).0;
    let t = m.sweep(true).0;
    let e = s.collect(true);
    assert(e.obj(v) == t.obj(v));
    assert(t.obj(v) == p.obj(v));
    if e.is_marked(v) {
        assert(p.is_marked(v));
        assert(m.obj(v) is Some);
        let i = choose|i: int| m.holds(i, v);
        assert(false);
    }
    if e.obj(v) is Some {
        law_survivors_are_promoted(s, true, v);
    }
}

/// An object that is marked from an earlier cycle survives a full collection, which
/// demotes it to an old object without a mark.
pub proof fn law_marked_is_demoted(s: State, v: u32)
    requires
        s.heap_ok(),
        s.is_marked(v),
    ensures
        s.kept(s.collect(true), v),
        s.collect(true).gc_bits(v) == 2,
{
    lemma_mark(s);
    lemma_marked_kept(s, true, v);
    law_full_collection_takes_marks(s, v);
}

/// What no root reaches is gone after two full collections, whatever its marks.
#[verifier::rlimit(40)]
#[verifier::spinoff_prover]
pub proof fn law_two_full_collections_reclaim(s: State, v: u32)
    requires
        s.healthy(),
        !s.rooted(v),
    ensures
        s.collect(true).collect(true).obj(v) is None,
{
    let e = s.collect(true);
    lemma_collect_healthy(s, true);
    lemma_collect_frame(s, true);
    if e.obj(v) is Some {
        let i = choose|i: int| e.holds(i, v);
        assert(!e.live(v)) by {
            if e.live(v) {
                let r = choose|r: u32|
                    (e.root_list().contains(r) || e.is_marked(r)) && #[trigger] e.reaches(r, v);
                law_full_collection_takes_marks(s, r);
                assert(s.root_list().contains(r));
                lemma_reached_before(s, e, r, v);
                assert(s.rooted(v));
            }
        }
        law_garbage_is_reclaimed(e, i, v);
    } else {
        lemma_not_revived(e, v);
    }
}

/// What a root reaches after a collection it reached before.
proof fn lemma_reached_before(s: State, e: State, r: u32, v: u32)
    requires
        s.healthy(),
        e.healthy(),
        roots_kept(s, e),
        like(s, e),
        s.root_list().contains(r),
        e.reaches(r, v),
    ensures
        s.reaches(r, v),
{
    crate::slots::lemma_empty_places(s, 0, 0);
    crate::slots::lemma_empty_places(e, 0, 0);
    lemma_reaches_ends(e, r, v);
    assert(s.good(r));
    assert forall|u: u32| #[trigger] s.reaches(r, u) implies s.kept(e, u) by {
        assert(s.rooted(u));
    }
    lemma_kept_good(s, e, r);
}

/// A collection makes no object.
proof fn lemma_not_revived(s: State, v: u32)
    requires
        s.healthy(),
        s.obj(v) is None,
    ensures
        s.collect(true).obj(v) is None,
{
    reveal(State::sweep);
    reveal(State::collect);
    lemma_mark(s);
    let m = s.mark();
    let acc = Sweep { survivors: 0, live_bytes: 0, promoted: 0, walked: 0 };
    let n = m.pages.len() as int;
    crate::survival::lemma_sweep_pages(m, 0, n, true, acc, v);
}

} // verus!
