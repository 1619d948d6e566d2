//! What it means for types to be identical.

use vstd::prelude::*;
use crate::access::MAX_NESTING;
use crate::bounds::{is_below, sound_types};
use crate::ground::law_plain_query;
use crate::id;
use crate::region::NULL;
use crate::state::State;

verus! {

/// Identical plain types are below each other.
proof fn lemma_identical(s: State, x: u32, dx: nat, y: u32, dy: nat, n: nat, fuel: nat)
    requires
        s.types_agree(),
        s.builtin(id::SVEC) != s.builtin(id::DATATYPE),
        s.plain_to(x, dx),
        s.plain_to(y, dy),
        n >= dx + dy,
        s.egal(x, y, fuel),
    ensures
        s.below(x, y, n),
        s.below(y, x, n),
    decreases fuel,
{
    if x != y {
        let px = s.parameters(x);
        let py = s.parameters(y);
        let m: nat = (n - 1) as nat;
        assert(s.egal_unboxed(s.tag(x), x, y, (fuel - 1) as nat));
        assert(s.name_of(x) == s.name_of(y));
        if px != NULL && py != NULL {
            assert(s.egal_elems(px, py, (fuel - 2) as nat));
            assert forall|i: int|
                #![trigger s.svec_ref(px, i)]
                0 <= i < s.svec_len(px) implies s.below(s.svec_ref(px, i), s.svec_ref(py, i), m)
                && s.below(s.svec_ref(py, i), s.svec_ref(px, i), m) by {
                let a = s.svec_ref(px, i);
                let b = s.svec_ref(py, i);
                assert(s.egal(a, b, (fuel - 3) as nat));
                lemma_identical(s, a, (dx - 1) as nat, b, (dy - 1) as nat, m, (fuel - 3) as nat);
            }
            assert forall|i: int|
                #![trigger s.svec_ref(py, i)]
                0 <= i < s.svec_len(py) implies s.below(s.svec_ref(py, i), s.svec_ref(px, i), m)
                && s.below(s.svec_ref(px, i), s.svec_ref(py, i), m) by {
                let a = s.svec_ref(px, i);
            }
        }
        assert(s.super_named(x, s.name_of(y), MAX_NESTING as nat) == Some(x));
        assert(s.super_named(y, s.name_of(x), MAX_NESTING as nat) == Some(y));
    }
}

/// Identical plain types are subtypes of each other; so types of which one is not below
/// the other are not identical, however many parameters they share.
pub proof fn law_identical_types_are_below_each_other(s: State, x: u32, y: u32)
    requires
        sound_types(s),
        s.builtin(id::SVEC) != s.builtin(id::DATATYPE),
        s.plain(x),
        s.plain(y),
        s.egal(x, y, MAX_NESTING as nat),
    ensures
        is_below(s, x, y),
        is_below(s, y, x),
{
    let n = s.objs.len();
    lemma_identical(s, x, n, y, n, 2 * n, MAX_NESTING as nat);
    law_plain_query(s, x, y, MAX_NESTING as nat);
    law_plain_query(s, y, x, MAX_NESTING as nat);
}

/// Distinct objects of a type other than a primitive and the types of types are never
/// identical, whatever they hold: they are told apart by a later write.
pub proof fn law_objects_are_identical_to_themselves_only(s: State, a: u32, b: u32)
    requires
        !s.is_primitive(s.tag(a)),
        forall|k: u32|
            k == id::SVEC || k == id::UNION || k == id::UNIONALL || k == id::DATATYPE ==> s.tag(a)
                != #[trigger] s.builtin(k),
    ensures
        s.egal(a, b, MAX_NESTING as nat) <==> a == b,
{
    assert(s.tag(a) != s.builtin(id::SVEC));
    assert(s.tag(a) != s.builtin(id::UNION));
    assert(s.tag(a) != s.builtin(id::UNIONALL));
    assert(s.tag(a) != s.builtin(id::DATATYPE));
}

} // verus!
