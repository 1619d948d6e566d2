//! Subtyping of plain types is an order.
//!
//! The relation is transitive where the supertypes of types of one name follow their
//! parameters: where one such type is below another, so are their supertypes. A union
//! is built of the members that are below no other, and every part is below one of
//! them.

use vstd::prelude::*;
use crate::access::MAX_NESTING;
use crate::ground;
use crate::id;
use crate::region::{NULL, REGION_SIZE};
use crate::state::State;
use crate::subtype_spec::filter_kept;
use crate::typewalk::dedup;

verus! {

impl State {
    /// Whether the supertypes of types of one name follow their parameters.
    pub open spec fn supers_follow(self) -> bool {
        let n = 2 * self.objs.len();
        forall|t: u32, u: u32| #[trigger]
            self.namesakes(t, u) && self.plain(t) && self.plain(u) && self.below(t, u, n)
                ==> self.below(self.supertype(t), self.supertype(u), n)
    }
}

/// The answer is the same for every depth that has room for both types.
proof fn lemma_enough(s: State, x: u32, dx: nat, y: u32, dy: nat, n: nat, m: nat)
    requires
        s.types_agree(),
        s.plain_to(x, dx),
        s.plain_to(y, dy),
        n >= dx + dy,
        m >= dx + dy,
        s.below(x, y, n),
    ensures
        s.below(x, y, m),
    decreases dx + dy,
{
    if !(x == y || y == s.builtin(id::ANY) || x == s.builtin(id::BOTTOM)) {
        let f = MAX_NESTING as nat;
        ground::lemma_super(s, x, dx, s.name_of(y), f);
        let xd = s.super_named(x, s.name_of(y), f)->Some_0;
        assert(s.namesakes(xd, y));
        let px = s.parameters(xd);
        let py = s.parameters(y);
        let n1: nat = (n - 1) as nat;
        let m1: nat = (m - 1) as nat;
        let ex: nat = (dx - 1) as nat;
        let ey: nat = (dy - 1) as nat;
        assert forall|i: int|
            #![trigger s.svec_ref(px, i)]
            px != NULL && py != NULL && 0 <= i < s.svec_len(px) && i < s.svec_len(py) && s.below(
                s.svec_ref(px, i),
                s.svec_ref(py, i),
                n1,
            ) implies s.below(s.svec_ref(px, i), s.svec_ref(py, i), m1) by {
            let b = s.svec_ref(py, i);
            lemma_enough(s, s.svec_ref(px, i), ex, b, ey, n1, m1);
        }
        assert forall|i: int|
            #![trigger s.svec_ref(px, i)]
            px != NULL && py != NULL && 0 <= i < s.svec_len(px) && i < s.svec_len(py) && s.below(
                s.svec_ref(py, i),
                s.svec_ref(px, i),
                n1,
            ) implies s.below(s.svec_ref(py, i), s.svec_ref(px, i), m1) by {
            let b = s.svec_ref(py, i);
            lemma_enough(s, b, ey, s.svec_ref(px, i), ex, n1, m1);
        }
    }
}

/// Between types of different names the answer is that of the supertype.
proof fn lemma_climb(s: State, x: u32, d: nat, y: u32, n: nat)
    requires
        s.types_agree(),
        s.plain_to(x, d),
        d <= MAX_NESTING,
        s.name_of(x) != s.name_of(y),
        x != s.builtin(id::BOTTOM),
        x != s.builtin(id::ANY),
        n > 0,
    ensures
        s.below(x, y, n) == s.below(s.supertype(x), y, n),
{
    let f = MAX_NESTING as nat;
    let z = s.supertype(x);
    let name = s.name_of(y);
    ground::lemma_reach(s, z, (d - 1) as nat, name, f, (f - 1) as nat);
    if z != x {
        assert(s.super_named(x, name, f) == s.super_named(z, name, (f - 1) as nat));
    }
    if z == y {
        let p = s.parameters(y);
        let m: nat = (n - 1) as nat;
        assert(forall|i: int| s.below(#[trigger] s.svec_ref(p, i), s.svec_ref(p, i), m));
        assert(s.below(x, y, n));
    }
}

/// What a supertype of `x` is below, with fewer supertypes, `x` is below.
proof fn lemma_chain(s: State, x: u32, d: nat, name: u32, fuel: nat, w: u32, dw: nat, n: nat)
    requires
        s.types_agree(),
        s.plain_to(x, d),
        d <= MAX_NESTING,
        s.plain_to(w, dw),
        n > 0,
        s.super_named(x, name, fuel) is Some,
        ({
            let xd = s.super_named(x, name, fuel)->Some_0;
            &&& xd != s.builtin(id::BOTTOM)
            &&& xd != s.builtin(id::ANY)
            &&& s.rank(w, dw) < s.rank(xd, d)
            &&& s.below(s.supertype(xd), w, n)
        }),
    ensures
        s.below(x, w, n),
    decreases fuel,
{
    let xd = s.super_named(x, name, fuel)->Some_0;
    ground::lemma_super(s, x, d, name, fuel);
    if x != s.builtin(id::BOTTOM) {
        if s.name_of(x) == s.name_of(w) {
            ground::lemma_rank(s, x, d, w, dw);
        }
        if s.name_of(x) == name {
            lemma_climb(s, x, d, w, n);
        } else {
            assert(x != s.builtin(id::ANY));
            let e: nat = (d - 1) as nat;
            let g: nat = (fuel - 1) as nat;
            ground::lemma_super(s, s.supertype(x), e, name, g);
            ground::lemma_rank(s, xd, e, xd, d);
            lemma_chain(s, s.supertype(x), e, name, g, w, dw, n);
            lemma_climb(s, x, d, w, n);
        }
    }
}

/// What is below a type is below its supertype.
proof fn lemma_lift(s: State, x: u32, dx: nat, y: u32, dy: nat, n: nat)
    requires
        s.types_agree(),
        s.supers_follow(),
        s.plain_to(x, dx),
        s.plain_to(y, dy),
        dx <= s.objs.len() <= MAX_NESTING,
        dy <= s.objs.len(),
        n >= dx + dy,
        s.below(x, y, n),
        y != s.builtin(id::ANY),
        y != s.builtin(id::BOTTOM),
    ensures
        s.below(x, s.supertype(y), n),
{
    let f = MAX_NESTING as nat;
    let w = s.supertype(y);
    let len = s.objs.len();
    let e: nat = (dy - 1) as nat;
    if x != s.builtin(id::BOTTOM) {
        ground::lemma_super(s, x, dx, s.name_of(y), f);
        assert(s.super_named(y, s.name_of(y), f) == Some(y));
        let xd = if x == y {
            y
        } else {
            s.super_named(x, s.name_of(y), f)->Some_0
        };
        assert(s.super_named(x, s.name_of(y), f) == Some(xd));
        assert(s.namesakes(xd, y));
        assert(s.super_named(xd, s.name_of(y), f) == Some(xd));
        assert(s.below(xd, y, n));
        ground::lemma_deeper(s, xd, dx, len);
        ground::lemma_deeper(s, y, dy, len);
        lemma_enough(s, xd, dx, y, dy, n, 2 * len);
        let z = s.supertype(xd);
        assert(s.below(z, w, 2 * len));
        lemma_enough(s, z, (dx - 1) as nat, w, e, 2 * len, n);
        ground::lemma_rank(s, xd, dx, y, dy);
        lemma_chain(s, x, dx, s.name_of(y), f, w, e, n);
    }
}

/// Being below is transitive.
#[verifier::rlimit(40)]
#[verifier::spinoff_prover]
proof fn lemma_trans(s: State, x: u32, dx: nat, y: u32, dy: nat, z: u32, dz: nat, n: nat)
    requires
        s.types_agree(),
        s.supers_follow(),
        s.plain_to(x, dx),
        s.plain_to(y, dy),
        s.plain_to(z, dz),
        dx <= s.objs.len() <= MAX_NESTING,
        dy <= s.objs.len(),
        dz <= s.objs.len(),
        n >= dx + dy + dz,
        s.below(x, y, n),
        s.below(y, z, n),
    ensures
        s.below(x, z, n),
    decreases dx + dy + dz, 1nat,
{
    let f = MAX_NESTING as nat;
    let any = s.builtin(id::ANY);
    let bottom = s.builtin(id::BOTTOM);
    ground::lemma_super(s, y, dy, s.name_of(z), f);
    ground::lemma_super(s, x, dx, s.name_of(y), f);
    if x == y || y == z || z == any || x == bottom {
    } else if y == any {
        assert(s.super_named(y, s.name_of(z), f) is Some ==> s.namesakes(y, z));
    } else if y == bottom {
        ground::lemma_not_bottom(s, x, dx, y, f);
    } else if s.name_of(y) == s.name_of(z) {
        let xd = s.super_named(x, s.name_of(y), f)->Some_0;
        assert(s.namesakes(xd, y) && s.namesakes(y, z));
        lemma_parts(s, xd, dx, y, dy, z, dz, n);
        assert(s.super_named(x, s.name_of(z), f) == Some(xd));
    } else {
        let w = s.supertype(y);
        lemma_lift(s, x, dx, y, dy, n);
        lemma_climb(s, y, dy, z, n);
        lemma_trans(s, x, dx, w, (dy - 1) as nat, z, dz, n);
    }
}

/// Transitivity of the parts of types of one name.
#[verifier::rlimit(40)]
#[verifier::spinoff_prover]
proof fn lemma_parts(s: State, x: u32, dx: nat, y: u32, dy: nat, z: u32, dz: nat, n: nat)
    requires
        s.types_agree(),
        s.supers_follow(),
        s.plain_to(x, dx),
        s.plain_to(y, dy),
        s.plain_to(z, dz),
        dx <= s.objs.len() <= MAX_NESTING,
        dy <= s.objs.len(),
        dz <= s.objs.len(),
        n >= dx + dy + dz,
        s.namesakes(x, y),
        s.namesakes(y, z),
        y != z,
        y != s.builtin(id::ANY),
        y != s.builtin(id::BOTTOM),
        x == y || s.below(x, y, n),
        s.below(y, z, n),
    ensures
        ({
            let px = s.parameters(x);
            let pz = s.parameters(z);
            let m: nat = (n - 1) as nat;
            if s.is_tuple(x) {
                &&& s.svec_seq(px).len() == s.svec_seq(pz).len()
                &&& forall|i: int|
                    #![trigger s.svec_ref(px, i)]
                    0 <= i < s.svec_seq(px).len() ==> s.below(
                        s.svec_ref(px, i),
                        s.svec_ref(pz, i),
                        m,
                    )
            } else {
                px == NULL || pz == NULL || forall|i: int|
                    #![trigger s.svec_ref(px, i)]
                    0 <= i < s.svec_len(px) ==> s.below(s.svec_ref(px, i), s.svec_ref(pz, i), m)
                        && s.below(s.svec_ref(pz, i), s.svec_ref(px, i), m)
            }
        }),
    decreases dx + dy + dz, 0nat,
{
    let f = MAX_NESTING as nat;
    let px = s.parameters(x);
    let py = s.parameters(y);
    let pz = s.parameters(z);
    let m: nat = (n - 1) as nat;
    let ex: nat = (dx - 1) as nat;
    let ey: nat = (dy - 1) as nat;
    let ez: nat = (dz - 1) as nat;
    assert(s.super_named(x, s.name_of(y), f) == Some(x));
    assert(s.super_named(y, s.name_of(z), f) == Some(y));
    assert forall|i: int|
        #![trigger s.svec_ref(px, i)]
        px != NULL && py != NULL && pz != NULL && 0 <= i < s.svec_len(px) && i < s.svec_len(py) && i
            < s.svec_len(pz) && s.below(s.svec_ref(px, i), s.svec_ref(py, i), m) && s.below(
            s.svec_ref(py, i),
            s.svec_ref(pz, i),
            m,
        ) implies s.below(s.svec_ref(px, i), s.svec_ref(pz, i), m) by {
        let a = s.svec_ref(px, i);
        let b = s.svec_ref(py, i);
        let c = s.svec_ref(pz, i);
        lemma_trans(s, a, ex, b, ey, c, ez, m);
    }
    assert forall|i: int|
        #![trigger s.svec_ref(px, i)]
        px != NULL && py != NULL && pz != NULL && 0 <= i < s.svec_len(px) && i < s.svec_len(py) && i
            < s.svec_len(pz) && s.below(s.svec_ref(py, i), s.svec_ref(px, i), m) && s.below(
            s.svec_ref(pz, i),
            s.svec_ref(py, i),
            m,
        ) implies s.below(s.svec_ref(pz, i), s.svec_ref(px, i), m) by {
        let a = s.svec_ref(px, i);
        let b = s.svec_ref(py, i);
        let c = s.svec_ref(pz, i);
        lemma_trans(s, c, ez, b, ey, a, ex, m);
    }
    assert forall|i: int|
        #![trigger s.svec_ref(px, i)]
        0 <= i < s.svec_len(px) && py != NULL && i < s.svec_len(py) implies s.below(
        s.svec_ref(py, i),
        s.svec_ref(pz, i),
        m,
    ) by {
        let b = s.svec_ref(py, i);
    }
}

/// Subtyping of plain types is transitive.
pub proof fn law_subtyping_is_transitive(s: State, x: u32, y: u32, z: u32)
    requires
        s.types_agree(),
        s.supers_follow(),
        s.plain(x),
        s.plain(y),
        s.plain(z),
        8 * s.objs.len() <= REGION_SIZE,
        s.subtype(x, y, MAX_NESTING as nat).1,
        s.subtype(y, z, MAX_NESTING as nat).1,
    ensures
        s.subtype(x, z, MAX_NESTING as nat).1,
{
    let f = MAX_NESTING as nat;
    ground::law_plain_query(s, x, y, f);
    ground::law_plain_query(s, y, z, f);
    ground::law_plain_query(s, x, z, f);
    lemma_transitive(s, x, y, z);
}

// --- unions -----------------------------------------------------------------

impl State {
    /// The members of which the union of `comps` is built: those that survive, in
    /// canonical order.
    pub open spec fn union_members(self, comps: Seq<u32>, fuel: nat) -> Seq<u32> {
        let (s, keep) = self.survivors(comps, Seq::new(comps.len(), |i: int| true), 0, fuel);
        let left = filter_kept(comps, keep, comps.len() as int);
        dedup(s.sorted(left, left.len() as int))
    }
}

/// A union is built of its members, nested to the right; without members it is
/// `Union{}`.
pub proof fn law_union_is_built_of_members(s: State, parts: Seq<u32>, fuel: nat)
    requires
        fuel > 0,
    ensures
        ({
            let a = s.push_roots(parts);
            let comps = a.flatten_all(parts, parts.len() as int);
            let ms = a.union_members(comps, (fuel - 1) as nat);
            let b = a.survivors(
                comps,
                Seq::new(comps.len(), |i: int| true),
                0,
                (fuel - 1) as nat,
            ).0;
            s.union_all(parts, fuel).1 == if ms.len() == 0 {
                s.builtin(id::BOTTOM)
            } else {
                b.nest_unions(ms, ms.len() - 1, ms.last()).1
            }
        }),
{
    reveal(State::union_all);
    reveal(State::survivors);
}

/// Whether component `i` is below component `j`.
spec fn under(s: State, comps: Seq<u32>, i: int, j: int) -> bool {
    s.below(comps[i], comps[j], 2 * s.objs.len())
}

/// What the comparison of plain components needs.
spec fn comparable(s: State, comps: Seq<u32>, fuel: nat) -> bool {
    &&& s.types_agree()
    &&& 8 * s.objs.len() <= REGION_SIZE
    &&& 8 * s.objs.len() + 7 <= fuel <= MAX_NESTING
    &&& forall|i: int| 0 <= i < comps.len() ==> s.plain(#[trigger] comps[i])
}

/// Whether component `j` sends component `i` away.
spec fn beats(s: State, comps: Seq<u32>, i: int, j: int) -> bool {
    under(s, comps, i, j) && !(under(s, comps, j, i) && i < j)
}

proof fn lemma_survives(s: State, comps: Seq<u32>, keep: Seq<bool>, i: int, j: int, fuel: nat)
    requires
        comparable(s, comps, fuel),
        0 <= i < comps.len(),
        0 <= j <= comps.len(),
        keep.len() == comps.len(),
    ensures
        s.survives(comps, keep, i, j, fuel) == (s, forall|k: int|
            j <= k < comps.len() && k != i && keep[k] ==> !(#[trigger] beats(s, comps, i, k))),
    decreases comps.len() - j,
{
    reveal(State::survives);
    reveal(State::subtype);
    if j < comps.len() {
        let f: nat = (fuel - 1) as nat;
        lemma_survives(s, comps, keep, i, j + 1, fuel);
        let rest = s.survives(comps, keep, i, j + 1, fuel);
        if i != j && keep[j] {
            ground::law_plain_query(s, comps[i], comps[j], f);
            ground::law_plain_query(s, comps[j], comps[i], f);
            let there = s.subtype(comps[i], comps[j], f);
            let back = s.subtype(comps[j], comps[i], f);
            assert(there == (s, under(s, comps, i, j)));
            assert(back == (s, under(s, comps, j, i)));
            assert(s.survives(comps, keep, i, j, fuel) == (s, rest.1 && !beats(s, comps, i, j))
                || beats(s, comps, i, j));
            if beats(s, comps, i, j) {
                assert(s.survives(comps, keep, i, j, fuel) == (s, false));
            }
        }
    }
}

/// Whether no component that was still kept sends component `k` away.
spec fn safe(s: State, comps: Seq<u32>, keep: Seq<bool>, k: int) -> bool {
    comps[k] != s.builtin(id::BOTTOM) && forall|j: int|
        0 <= j < comps.len() && j != k && (j < k ==> keep[j]) ==> !(#[trigger] beats(
            s,
            comps,
            k,
            j,
        ))
}

/// Whether component `k` is sent away by one that was still kept.
spec fn sent(s: State, comps: Seq<u32>, keep: Seq<bool>, k: int) -> bool {
    exists|j: int|
        0 <= j < comps.len() && j != k && (j < k ==> keep[j]) && #[trigger] beats(s, comps, k, j)
}

/// What is known of the components from `i` on after they were judged.
spec fn judged(s: State, comps: Seq<u32>, keep: Seq<bool>, i: int) -> bool {
    &&& keep.len() == comps.len()
    &&& forall|k: int|
        #![trigger keep[k]]
        i <= k < comps.len() ==> (keep[k] ==> safe(s, comps, keep, k)) && (!keep[k] && comps[k]
            != s.builtin(id::BOTTOM) ==> sent(s, comps, keep, k))
}

#[verifier::rlimit(40)]
#[verifier::spinoff_prover]
proof fn lemma_survivors(s: State, comps: Seq<u32>, keep: Seq<bool>, i: int, fuel: nat)
    requires
        comparable(s, comps, fuel),
        0 <= i <= comps.len(),
        keep.len() == comps.len(),
        forall|k: int| i <= k < comps.len() ==> #[trigger] keep[k],
    ensures
        ({
            let (e, kept) = s.survivors(comps, keep, i, fuel);
            &&& e == s
            &&& judged(s, comps, kept, i)
            &&& forall|k: int| 0 <= k < i ==> #[trigger] kept[k] == keep[k]
        }),
    decreases comps.len() - i,
{
    reveal(State::survivors);
    reveal(State::survives);
    if i < comps.len() {
        let bottom = s.builtin(id::BOTTOM);
        lemma_survives(s, comps, keep, i, 0, fuel);
        let ok = comps[i] != bottom && s.survives(comps, keep, i, 0, fuel).1;
        let keep1 = keep.update(i, ok);
        lemma_survivors(s, comps, keep1, i + 1, fuel);
        let (e, kept) = s.survivors(comps, keep1, i + 1, fuel);
        assert(s.survivors(comps, keep, i, fuel) == (e, kept));
        assert(kept[i] == ok);
        assert forall|k: int| 0 <= k < i implies #[trigger] kept[k] == keep[k] by {
            assert(kept[k] == keep1[k]);
        }
        if ok {
            assert forall|j: int|
                0 <= j < comps.len() && j != i && (j < i ==> kept[j]) implies !(#[trigger] beats(
                s,
                comps,
                i,
                j,
            )) by {
                if j < i {
                    assert(kept[j] == keep[j]);
                }
                assert(keep[j]);
            }
            assert(safe(s, comps, kept, i));
        } else if comps[i] != bottom {
            let j = choose|j: int|
                0 <= j < comps.len() && j != i && keep[j] && #[trigger] beats(s, comps, i, j);
            if j < i {
                assert(kept[j] == keep[j]);
            }
            assert(sent(s, comps, kept, i));
        }
    }
}

/// No component that is kept is below another one.
proof fn lemma_kept_apart(s: State, comps: Seq<u32>, keep: Seq<bool>, a: int, b: int)
    requires
        judged(s, comps, keep, 0),
        0 <= a < comps.len(),
        0 <= b < comps.len(),
        a != b,
        keep[a],
        keep[b],
    ensures
        !under(s, comps, a, b),
{
    assert(safe(s, comps, keep, a) && safe(s, comps, keep, b));
    assert(!beats(s, comps, a, b));
    assert(!beats(s, comps, b, a));
}

/// Every component but `Union{}` is below one that is kept.
proof fn lemma_kept_covers(s: State, comps: Seq<u32>, keep: Seq<bool>, i: int, fuel: nat)
    requires
        comparable(s, comps, fuel),
        s.supers_follow(),
        judged(s, comps, keep, 0),
        0 <= i < comps.len(),
        comps[i] != s.builtin(id::BOTTOM),
    ensures
        exists|k: int| 0 <= k < comps.len() && #[trigger] keep[k] && under(s, comps, i, k),
    decreases comps.len() - i,
{
    if keep[i] {
        assert(under(s, comps, i, i));
    } else {
        assert(sent(s, comps, keep, i));
        let j = choose|j: int|
            0 <= j < comps.len() && j != i && (j < i ==> keep[j]) && #[trigger] beats(
                s,
                comps,
                i,
                j,
            );
        if j < i {
            assert(keep[j] && under(s, comps, i, j));
        } else if comps[j] == s.builtin(id::BOTTOM) {
            lemma_under_bottom(s, comps[i]);
        } else {
            lemma_kept_covers(s, comps, keep, j, fuel);
            let k = choose|k: int|
                0 <= k < comps.len() && #[trigger] keep[k] && under(s, comps, j, k);
            lemma_transitive(s, comps[i], comps[j], comps[k]);
            assert(keep[k] && under(s, comps, i, k));
        }
    }
}

/// Nothing but `Union{}` is below `Union{}`.
proof fn lemma_under_bottom(s: State, x: u32)
    requires
        s.types_agree(),
        s.plain(x),
        s.plain(s.builtin(id::BOTTOM)),
        s.below(x, s.builtin(id::BOTTOM), 2 * s.objs.len()),
    ensures
        x == s.builtin(id::BOTTOM),
{
    let bottom = s.builtin(id::BOTTOM);
    if x != bottom {
        ground::lemma_not_bottom(s, x, s.objs.len(), bottom, MAX_NESTING as nat);
    }
}

proof fn lemma_transitive(s: State, x: u32, y: u32, z: u32)
    requires
        s.types_agree(),
        s.supers_follow(),
        s.plain(x),
        s.plain(y),
        s.plain(z),
        8 * s.objs.len() <= REGION_SIZE,
        s.below(x, y, 2 * s.objs.len()),
        s.below(y, z, 2 * s.objs.len()),
    ensures
        s.below(x, z, 2 * s.objs.len()),
{
    let len = s.objs.len();
    lemma_enough(s, x, len, y, len, 2 * len, 3 * len);
    lemma_enough(s, y, len, z, len, 2 * len, 3 * len);
    lemma_trans(s, x, len, y, len, z, len, 3 * len);
    lemma_enough(s, x, len, z, len, 3 * len, 2 * len);
}

/// Whether `x` is one of the first `n` components, and kept.
spec fn among(comps: Seq<u32>, keep: Seq<bool>, n: int, x: u32) -> bool {
    exists|k: int| 0 <= k < n && #[trigger] keep[k] && comps[k] == x
}

/// What a filtered list holds.
proof fn lemma_filtered(comps: Seq<u32>, keep: Seq<bool>, n: int, x: u32)
    requires
        0 <= n <= comps.len(),
        keep.len() == comps.len(),
    ensures
        filter_kept(comps, keep, n).contains(x) == among(comps, keep, n, x),
    decreases n,
{
    if n > 0 {
        lemma_filtered(comps, keep, n - 1, x);
        let rest = filter_kept(comps, keep, n - 1);
        lemma_push_holds(rest, comps[n - 1], x);
        if among(comps, keep, n - 1, x) {
            let k = choose|k: int| 0 <= k < n - 1 && #[trigger] keep[k] && comps[k] == x;
            assert(keep[k] && comps[k] == x);
        }
        if keep[n - 1] && comps[n - 1] == x {
            assert(among(comps, keep, n, x));
        }
    }
}

/// What a list holds after an insertion.
proof fn lemma_inserted(s: State, xs: Seq<u32>, x: u32, y: u32)
    ensures
        s.insert_sorted(xs, x).contains(y) == (xs.contains(y) || y == x),
    decreases xs.len(),
{
    let r = s.insert_sorted(xs, x);
    if xs.len() == 0 {
        assert(r[0] == x);
    } else if s.type_order(x, xs.last()) == crate::typewalk::Order::Before {
        let front = xs.drop_last();
        lemma_inserted(s, front, x, y);
        let q = s.insert_sorted(front, x);
        lemma_push_holds(q, xs.last(), y);
        assert(front.push(xs.last()) =~= xs);
        lemma_push_holds(front, xs.last(), y);
    } else {
        lemma_push_holds(xs, x, y);
    }
}

proof fn lemma_push_holds(xs: Seq<u32>, x: u32, y: u32)
    ensures
        xs.push(x).contains(y) == (xs.contains(y) || y == x),
{
    let r = xs.push(x);
    if xs.contains(y) {
        let j = choose|j: int| 0 <= j < xs.len() && xs[j] == y;
        assert(r[j] == y);
    }
    if y == x {
        assert(r[xs.len() as int] == y);
    }
    if r.contains(y) && y != x {
        let j = choose|j: int| 0 <= j < r.len() && r[j] == y;
        assert(xs[j] == y);
    }
}

/// What a list holds after it was sorted.
proof fn lemma_sorted(s: State, xs: Seq<u32>, n: int, y: u32)
    requires
        0 <= n <= xs.len(),
    ensures
        s.sorted(xs, n).contains(y) == xs.take(n).contains(y),
    decreases n,
{
    if n > 0 {
        lemma_sorted(s, xs, n - 1, y);
        lemma_inserted(s, s.sorted(xs, n - 1), xs[n - 1], y);
        assert(xs.take(n - 1).push(xs[n - 1]) =~= xs.take(n));
        lemma_push_holds(xs.take(n - 1), xs[n - 1], y);
    } else {
        assert(xs.take(0) =~= Seq::<u32>::empty());
    }
}

/// What a list holds without repetitions.
proof fn lemma_dedup(xs: Seq<u32>, y: u32)
    ensures
        dedup(xs).contains(y) == xs.contains(y),
    decreases xs.len(),
{
    if xs.len() > 1 {
        let front = xs.drop_last();
        lemma_dedup(front, y);
        assert(front.push(xs.last()) =~= xs);
        lemma_push_holds(front, xs.last(), y);
        lemma_push_holds(dedup(front), xs.last(), y);
        if xs[xs.len() - 2] == xs.last() {
            assert(front[xs.len() - 2] == xs.last());
        }
    }
}

/// A union of plain types is in normal form: its members are among its components and
/// are not `Union{}`; none is below another; and every component but `Union{}` is below
/// one of them.
pub proof fn law_unions_are_normal(s: State, comps: Seq<u32>, fuel: nat)
    requires
        s.types_agree(),
        s.supers_follow(),
        8 * s.objs.len() <= REGION_SIZE,
        8 * s.objs.len() + 7 <= fuel <= MAX_NESTING,
        forall|i: int| 0 <= i < comps.len() ==> s.plain(#[trigger] comps[i]),
    ensures
        ({
            let ms = s.union_members(comps, fuel);
            let n = 2 * s.objs.len();
            let bottom = s.builtin(id::BOTTOM);
            &&& forall|a: u32| #[trigger] ms.contains(a) ==> comps.contains(a) && a != bottom
            &&& forall|a: u32, b: u32|
                #![trigger ms.contains(a), ms.contains(b)]
                ms.contains(a) && ms.contains(b) && a != b ==> !s.below(a, b, n)
            &&& forall|i: int|
                0 <= i < comps.len() && comps[i] != bottom ==> exists|a: u32|
                    ms.contains(a) && #[trigger] s.below(#[trigger] comps[i], a, n)
        }),
{
    let trues = Seq::new(comps.len(), |i: int| true);
    let bottom = s.builtin(id::BOTTOM);
    let n = 2 * s.objs.len();
    lemma_survivors(s, comps, trues, 0, fuel);
    let keep = s.survivors(comps, trues, 0, fuel).1;
    let left = filter_kept(comps, keep, comps.len() as int);
    let ms = s.union_members(comps, fuel);
    let len = comps.len() as int;
    assert forall|a: u32| #[trigger] ms.contains(a) == among(comps, keep, len, a) by {
        lemma_sorted(s, left, left.len() as int, a);
        lemma_dedup(s.sorted(left, left.len() as int), a);
        assert(left.take(left.len() as int) =~= left);
        lemma_filtered(comps, keep, len, a);
    }
    assert forall|a: u32| #[trigger] ms.contains(a) implies comps.contains(a) && a != bottom by {
        let k = choose|k: int| 0 <= k < len && #[trigger] keep[k] && comps[k] == a;
        assert(safe(s, comps, keep, k));
    }
    assert forall|a: u32, b: u32|
        #![trigger ms.contains(a), ms.contains(b)]
        ms.contains(a) && ms.contains(b) && a != b implies !s.below(a, b, n) by {
        let i = choose|i: int| 0 <= i < comps.len() && #[trigger] keep[i] && comps[i] == a;
        let j = choose|j: int| 0 <= j < comps.len() && #[trigger] keep[j] && comps[j] == b;
        lemma_kept_apart(s, comps, keep, i, j);
    }
    assert forall|i: int| 0 <= i < comps.len() && comps[i] != bottom implies exists|a: u32|
        ms.contains(a) && #[trigger] s.below(#[trigger] comps[i], a, n) by {
        lemma_kept_covers(s, comps, keep, i, fuel);
        let k = choose|k: int|
            0 <= k < comps.len() && #[trigger] keep[k] && under(s, comps, i, k);
        assert(among(comps, keep, len, comps[k]));
        assert(ms.contains(comps[k]) && s.below(comps[i], comps[k], n));
    }
}

/// The order of the parts is of no account: of unions of the same components, each
/// member of the one is below a member of the other.
pub proof fn law_union_order_does_not_matter(
    s: State,
    comps: Seq<u32>,
    others: Seq<u32>,
    fuel: nat,
)
    requires
        s.types_agree(),
        s.supers_follow(),
        8 * s.objs.len() <= REGION_SIZE,
        8 * s.objs.len() + 7 <= fuel <= MAX_NESTING,
        forall|i: int| 0 <= i < comps.len() ==> s.plain(#[trigger] comps[i]),
        forall|i: int| 0 <= i < others.len() ==> s.plain(#[trigger] others[i]),
        forall|a: u32| comps.contains(a) <==> #[trigger] others.contains(a),
    ensures
        s.all_below_some(s.union_members(comps, fuel), s.union_members(others, fuel)),
        s.all_below_some(s.union_members(others, fuel), s.union_members(comps, fuel)),
{
    lemma_covered(s, comps, others, fuel);
    lemma_covered(s, others, comps, fuel);
}

proof fn lemma_covered(s: State, comps: Seq<u32>, others: Seq<u32>, fuel: nat)
    requires
        s.types_agree(),
        s.supers_follow(),
        8 * s.objs.len() <= REGION_SIZE,
        8 * s.objs.len() + 7 <= fuel <= MAX_NESTING,
        forall|i: int| 0 <= i < comps.len() ==> s.plain(#[trigger] comps[i]),
        forall|i: int| 0 <= i < others.len() ==> s.plain(#[trigger] others[i]),
        forall|a: u32| comps.contains(a) <==> #[trigger] others.contains(a),
    ensures
        s.all_below_some(s.union_members(comps, fuel), s.union_members(others, fuel)),
{
    let ms = s.union_members(comps, fuel);
    let os = s.union_members(others, fuel);
    let n = 2 * s.objs.len();
    law_unions_are_normal(s, comps, fuel);
    law_unions_are_normal(s, others, fuel);
    assert forall|i: int| 0 <= i < ms.len() implies s.below_some(#[trigger] ms[i], os) by {
        assert(ms.contains(ms[i]));
        assert(others.contains(ms[i]));
        let k = choose|k: int| 0 <= k < others.len() && others[k] == ms[i];
        let a = choose|a: u32| os.contains(a) && #[trigger] s.below(others[k], a, n);
        let j = choose|j: int| 0 <= j < os.len() && os[j] == a;
        assert(s.below(ms[i], os[j], n));
    }
}

} // verus!
