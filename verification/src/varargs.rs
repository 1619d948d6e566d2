//! Subtyping of tuples of any length.

use vstd::prelude::*;
use crate::access::MAX_NESTING;
use crate::bounds::{is_below, lemma_rooted_types, lemma_verdict, sound_types};
use crate::env::{EnvV, Param, Q};
use crate::ground::law_plain_walk;
use crate::id;
use crate::region::NULL;
use crate::state::State;
use crate::subtype::law_any_is_top;
use crate::typewalk::VarargKind;
use crate::wheres::{lemma_against_datatype, lemma_sub_is};

verus! {

/// Whether `t` is a tuple type.
pub open spec fn is_product(s: State, t: u32) -> bool {
    &&& s.is_datatype(t)
    &&& s.is_tuple(t)
    &&& !s.is_type_type(t)
    &&& t != s.builtin(id::ANY)
    &&& t != s.builtin(id::BOTTOM)
    &&& s.parameters(t) != NULL
}

/// Whether `t` is the tuple of any number of members of type `b`.
pub open spec fn any_number_of(s: State, t: u32, b: u32) -> bool {
    &&& is_product(s, t)
    &&& s.svec_len(s.parameters(t)) == 1
    &&& ({
        let va = s.svec_ref(s.parameters(t), 0);
        s.is_vararg(va) && s.vararg_num(va) == NULL && s.vararg_elem(va) == b
    })
}

/// The members from `i` on, against a repeated member.
proof fn lemma_rest(q: Q, px: u32, py: u32, b: u32, i: int, n: nat, vy: nat, xi: u32, fuel: nat)
    requires
        sound_types(q.s),
        q.s.plain(b),
        0 <= i <= n,
        n == q.s.svec_len(px),
        n > 0,
        i > 0 ==> vy > 0,
        i == 0 ==> vy == 0,
        b == q.s.builtin(id::ANY) ==> i == 0,
        forall|k: int| 0 <= k < n ==> q.s.plain(#[trigger] q.s.svec_ref(px, k)),
        ({
            let va = q.s.svec_ref(py, 0);
            q.s.is_vararg(va) && q.s.vararg_num(va) == NULL && q.s.vararg_elem(va) == b
        }),
        q.e.loffset == 0,
        q.e.invdepth == 0,
        8 * q.s.objs.len() + 8 <= fuel <= MAX_NESTING,
    ensures
        ({
            let va = q.s.svec_ref(py, 0);
            let yi = if i == 0 {
                NULL
            } else {
                va
            };
            q.sub_tail(px, py, n as int, 1, i, 0, 0, vy, xi, yi, Param::Covariant, fuel) == (
                q,
                forall|k: int|
                    i <= k < n ==> is_below(q.s, #[trigger] q.s.svec_ref(px, k), b),
            )
        }),
    decreases n - i,
{
    let s = q.s;
    let va = s.svec_ref(py, 0);
    let yi = if i == 0 {
        NULL
    } else {
        va
    };
    let f: nat = (fuel - 1) as nat;
    let here = q.sub_tail(px, py, n as int, 1, i, 0, 0, vy, xi, yi, Param::Covariant, fuel);
    if i == n {
        assert(q.sub_tail_end(n as int, 1, 0, (vy + 1) as int, va, f) == (q, true)) by {
            reveal(Q::sub_tail_end);
            reveal(Q::check_length);
        }
        assert(here == q.sub_tail_end(n as int, 1, 0, (vy + 1) as int, va, f)) by {
            reveal(Q::sub_tail);
            reveal(Q::sub_tail_end);
        }
    } else if b == s.builtin(id::ANY) {
        assert(q.sub_tail_end(n as int, 1, 0, 1, va, f) == (q, true)) by {
            reveal(Q::sub_tail_end);
            reveal(Q::check_length);
        }
        assert(s.plain(s.svec_ref(px, n - 1)));
        assert(s.plain(s.svec_ref(px, 0)));
        assert(here == q.sub_tail_end(n as int, 1, 0, 1, va, f)) by {
            reveal(Q::sub_tail);
            reveal(Q::sub_tail_end);
        }
        assert forall|k: int| 0 <= k < n implies is_below(s, #[trigger] s.svec_ref(px, k), b) by {
            law_any_is_top(s, s.svec_ref(px, k));
        }
    } else {
        let x = s.svec_ref(px, i);
        assert(s.plain(x));
        law_plain_walk(q, x, b, Param::Covariant, f);
        lemma_rest(q, px, py, b, i + 1, n, vy + 1, x, fuel);
        let next = q.sub_tail(
            px,
            py,
            n as int,
            1,
            i + 1,
            0,
            0,
            vy + 1,
            x,
            va,
            Param::Covariant,
            fuel,
        );
        assert(here == if is_below(s, x, b) {
            next
        } else {
            (q, false)
        }) by {
            reveal(Q::sub_tail);
            reveal(Q::sub);
        }
    }
}

/// The walk of a tuple against the tuple of any number of members.
proof fn lemma_walk(q: Q, x: u32, y: u32, b: u32, fuel: nat)
    requires
        sound_types(q.s),
        q.s.plain(b),
        x != y,
        is_product(q.s, x),
        any_number_of(q.s, y, b),
        q.s.name_of(x) == q.s.name_of(y),
        q.s.svec_len(q.s.parameters(x)) > 0,
        forall|k: int|
            0 <= k < q.s.svec_len(q.s.parameters(x)) ==> q.s.plain(
                #[trigger] q.s.svec_ref(q.s.parameters(x), k),
            ),
        q.e.loffset == 0,
        q.e.invdepth == 0,
        8 * q.s.objs.len() + 11 <= fuel <= MAX_NESTING,
    ensures
        q.sub(x, y, Param::Top, fuel) == (
            q,
            forall|k: int|
                0 <= k < q.s.svec_len(q.s.parameters(x)) ==> is_below(
                    q.s,
                    #[trigger] q.s.svec_ref(q.s.parameters(x), k),
                    b,
                ),
        ),
{
    let s = q.s;
    let px = s.parameters(x);
    let py = s.parameters(y);
    let n = s.svec_len(px) as nat;
    let va = s.svec_ref(py, 0);
    lemma_sub_is(q, x, y, Param::Top, fuel);
    lemma_against_datatype(q, x, y, Param::Top, fuel);
    assert(s.svec_seq(px).len() == n && s.svec_seq(py).len() == 1);
    assert(q.sub_datatype(x, y, Param::Top, (fuel - 1) as nat) == q.sub_tuple(
        x,
        y,
        Param::Covariant,
        (fuel - 2) as nat,
    )) by {
        reveal(Q::sub_datatype);
        reveal(Q::sub_tuple);
        assert(s.super_named(x, s.name_of(y), MAX_NESTING as nat) == Some(x));
    }
    let f: nat = (fuel - 3) as nat;
    assert(q.sub_tuple(x, y, Param::Covariant, (fuel - 2) as nat) == q.sub_tail_start(
        px,
        py,
        n as int,
        1,
        Param::Covariant,
        f,
    )) by {
        reveal(Q::sub_tuple);
        reveal(Q::sub_tail_start);
        assert(s.plain(s.svec_ref(px, n - 1)));
        assert(s.vararg_kind(s.svec_ref(px, n - 1)) == VarargKind::Fixed);
        assert(s.vararg_kind(va) == VarargKind::Unbound);
    }
    lemma_rest(q, px, py, b, 0, n, 0, NULL, f);
    assert(q.sub_tail_start(px, py, n as int, 1, Param::Covariant, f) == q.sub_tail(
        px,
        py,
        n as int,
        1,
        0,
        0,
        0,
        0,
        NULL,
        NULL,
        Param::Covariant,
        f,
    )) by {
        reveal(Q::sub_tail_start);
        reveal(Q::sub_tail);
    }
}

/// A tuple of plain types is below the tuple of any number of members of a plain type
/// exactly if each of its members is below that type.
pub proof fn law_any_number_of_members(s: State, x: u32, y: u32, b: u32)
    requires
        sound_types(s),
        s.plain(b),
        is_product(s, x),
        any_number_of(s, y, b),
        s.name_of(x) == s.name_of(y),
        s.svec_len(s.parameters(x)) > 0,
        forall|k: int|
            0 <= k < s.svec_len(s.parameters(x)) ==> s.plain(
                #[trigger] s.svec_ref(s.parameters(x), k),
            ),
    ensures
        is_below(s, x, y) <==> forall|k: int|
            0 <= k < s.svec_len(s.parameters(x)) ==> is_below(
                s,
                #[trigger] s.svec_ref(s.parameters(x), k),
                b,
            ),
{
    let fuel = MAX_NESTING as nat;
    let px = s.parameters(x);
    let n = s.svec_len(px) as nat;
    let t = s.push_roots(seq![x, y]);
    let q = Q { s: t, e: EnvV::empty() };
    lemma_rooted_types(s, t, b, b);
    assert forall|k: int| 0 <= k < n implies t.plain(#[trigger] t.svec_ref(px, k)) && is_below(
        t,
        t.svec_ref(px, k),
        b,
    ) == is_below(s, s.svec_ref(px, k), b) by {
        assert(t.svec_ref(px, k) == s.svec_ref(px, k));
        assert(s.plain(s.svec_ref(px, k)));
        lemma_rooted_types(s, t, s.svec_ref(px, k), b);
    }
    assert(x != y) by {
        assert(s.plain(s.svec_ref(px, 0)));
    }
    lemma_walk(q, x, y, b, (fuel - 2) as nat);
    lemma_verdict(s, x, y, fuel);
    assert forall|k: int| 0 <= k < n implies t.svec_ref(px, k) == #[trigger] s.svec_ref(px, k) by {}
}

} // verus!
