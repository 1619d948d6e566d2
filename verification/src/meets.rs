//! The meet of two types.

use vstd::prelude::*;
use crate::access::MAX_NESTING;
use crate::bounds::{is_below, sound_types};
use crate::ground::{law_plain_query, lemma_egal_below};
use crate::id;
use crate::state::State;
use crate::subtype_spec::{all_below, any_alive, stand};

verus! {

/// Whether `t` is a plain type other than a tuple and the empty type, without variables.
pub open spec fn nominal(s: State, t: u32) -> bool {
    &&& s.plain(t)
    &&& !s.is_tuple(t)
    &&& t != s.builtin(id::BOTTOM)
    &&& !s.has_free_typevars(t)
}

/// Two types share no instance if neither is below the other.
proof fn lemma_disjoint(s: State, a: u32, b: u32, fuel: nat)
    requires
        sound_types(s),
        nominal(s, a),
        nominal(s, b),
        8 * s.objs.len() + 9 <= fuel <= MAX_NESTING,
    ensures
        s.disjoint(a, b, fuel) == (s, a != b && !is_below(s, a, b) && !is_below(s, b, a)),
{
    let f: nat = (fuel - 1) as nat;
    law_plain_query(s, a, b, f);
    law_plain_query(s, b, a, f);
    law_plain_query(s, a, b, MAX_NESTING as nat);
    law_plain_query(s, b, a, MAX_NESTING as nat);
    reveal(State::disjoint);
    reveal(State::subtype);
}

/// Two components, one on each side: both live unless they share no instance.
proof fn lemma_alive(s: State, a: u32, b: u32, fuel: nat)
    requires
        sound_types(s),
        nominal(s, a),
        nominal(s, b),
        8 * s.objs.len() + 10 <= fuel <= MAX_NESTING,
    ensures
        ({
            let d = a != b && !is_below(s, a, b) && !is_below(s, b, a);
            s.alive_rows(seq![a, b], seq![false, false], 1, 0, fuel) == (s, seq![!d, !d])
        }),
{
    let d = a != b && !is_below(s, a, b) && !is_below(s, b, a);
    let cs = seq![a, b];
    let none = seq![false, false];
    lemma_disjoint(s, a, b, (fuel - 1) as nat);
    reveal(State::alive_rows);
    reveal(State::alive_row);
    reveal(State::disjoint);
    let out = seq![!d, !d];
    assert(none.update(0, true).update(1, true) =~= seq![true, true]);
    assert(none =~= seq![false, false]);
    assert(s.alive_row(cs, out, 0, 2, fuel) == (s, out));
    assert(s.alive_row(cs, none, 0, 1, fuel) == s.alive_row(cs, out, 0, 2, fuel));
    assert(s.alive_rows(cs, out, 1, 1, fuel) == (s, out));
}

/// The standings of two components, one on each side.
proof fn lemma_standing(s: State, a: u32, b: u32, fuel: nat)
    requires
        sound_types(s),
        nominal(s, a),
        nominal(s, b),
        8 * s.objs.len() + 10 <= fuel <= MAX_NESTING,
    ensures
        s.standing_rows(seq![a, b], seq![true, true], seq![0i8, 0i8], 1, 0, fuel) == (
            s,
            stand(seq![0i8, 0i8], 0, 1, is_below(s, a, b), is_below(s, b, a)),
        ),
{
    let cs = seq![a, b];
    let both = seq![true, true];
    let st = seq![0i8, 0i8];
    let f: nat = (fuel - 1) as nat;
    law_plain_query(s, a, b, f);
    law_plain_query(s, b, a, f);
    law_plain_query(s, a, b, MAX_NESTING as nat);
    law_plain_query(s, b, a, MAX_NESTING as nat);
    reveal(State::standing_rows);
    reveal(State::standing_row);
    reveal(State::subtype);
    let out = stand(st, 0, 1, is_below(s, a, b), is_below(s, b, a));
    assert(s.standing_row(cs, both, out, 0, 2, fuel) == (s, out));
    assert(s.standing_row(cs, both, st, 0, 1, fuel) == s.standing_row(cs, both, out, 0, 2, fuel));
    assert(s.standing_rows(cs, both, out, 1, 1, fuel) == (s, out));
}

/// The meet of two components.
#[verifier::rlimit(40)]
proof fn lemma_meet_two(s: State, a: u32, b: u32, mode: int, fuel: nat)
    requires
        sound_types(s),
        nominal(s, a),
        nominal(s, b),
        a != b,
        8 * s.objs.len() + 12 <= fuel <= MAX_NESTING,
    ensures
        s.meet_unions(a, b, mode, fuel) == (s, if is_below(s, a, b) {
            a
        } else if is_below(s, b, a) {
            b
        } else {
            s.builtin(id::BOTTOM)
        }),
{
    let f: nat = (fuel - 1) as nat;
    let cs = seq![a, b];
    let (ab, ba) = (is_below(s, a, b), is_below(s, b, a));
    lemma_alive(s, a, b, f);
    lemma_standing(s, a, b, f);
    assert(s.flatten(a, MAX_NESTING as nat) == seq![a]);
    assert(s.flatten(b, MAX_NESTING as nat) == seq![b]);
    assert(seq![a] + seq![b] =~= cs);
    assert(Seq::new(2, |i: int| false) =~= seq![false, false]);
    assert(Seq::new(2, |i: int| 0i8) =~= seq![0i8, 0i8]);
    let both = seq![true, true];
    let st = stand(seq![0i8, 0i8], 0, 1, ab, ba);
    assert(both[0] && both[1]);
    assert(any_alive(both, 0, 1));
    assert(ab ==> all_below(both, st, 0, 1, true));
    assert(!ab ==> !all_below(both, st, 0, 1, true)) by {
        assert(both[0]);
    }
    assert(ba ==> all_below(both, st, 1, 2, true));
    let none = seq![false, false];
    assert(!any_alive(none, 0, 1)) by {
        assert(!none[0]);
    }
    reveal(State::meet_unions);
    reveal(State::alive_rows);
    reveal(State::standing_rows);
}

/// The meet of two plain types other than tuples is the smaller one where one is below
/// the other, and empty where neither is. Nothing else changes.
pub proof fn law_meets_are_the_smaller_type(s: State, a: u32, b: u32, mode: int, fuel: nat)
    requires
        sound_types(s),
        nominal(s, a),
        nominal(s, b),
        8 * s.objs.len() + 13 <= fuel <= MAX_NESTING,
    ensures
        ({
            let (e, m) = s.meet(a, b, mode, fuel);
            &&& e == s
            &&& is_below(s, a, b) && !is_below(s, b, a) ==> m == a
            &&& is_below(s, b, a) && !is_below(s, a, b) ==> m == b
            &&& is_below(s, a, b) && is_below(s, b, a) ==> m == a || m == b
            &&& !is_below(s, a, b) && !is_below(s, b, a) ==> m == s.builtin(id::BOTTOM)
        }),
{
    let n = s.objs.len();
    law_plain_query(s, a, b, MAX_NESTING as nat);
    law_plain_query(s, b, a, MAX_NESTING as nat);
    if s.obviously_egal(a, b, MAX_NESTING as nat) {
        lemma_egal_below(s, a, n, b, n, 2 * n, MAX_NESTING as nat);
    } else {
        lemma_meet_two(s, a, b, mode, (fuel - 1) as nat);
    }
    assert(s.plain_to(a, n) && s.plain_to(b, n));
    reveal(State::meet);
    reveal(State::meet_unions);
}

} // verus!
