//! Subtyping of plain types.
//!
//! A plain type is a data type whose parameters and supertypes are plain: no
//! union, no variable, no tail of a tuple and no `Type{T}` occurs in it. Of such
//! types the engine's answer has a short description. A type is below another if
//! one of its supertypes, itself included, has the other's name, and then tuple
//! elements are below each other one by one, and other parameters are below each
//! other both ways. The answer leaves no trace, it is the same however deep the
//! question stands in another one, and the engine is never short of depth: a
//! chain of types is no longer than the region has room for objects.

use vstd::prelude::*;
use crate::access::MAX_NESTING;
use crate::env::{bounds, EnvV, Param, Q};
use crate::id;
use crate::region::{NULL, REGION_SIZE};
use crate::state::State;
use crate::subtype_spec::MAX_PASSES;

verus! {

impl State {
    /// Whether `t` and `u` are data types of one name.
    pub open spec fn namesakes(self, t: u32, u: u32) -> bool {
        self.is_datatype(t) && self.is_datatype(u) && self.name_of(t) == self.name_of(u)
    }

    /// What data types of one name have in common: their supertypes are of one
    /// name too, and those that are no tuple types have equally many parameters.
    pub open spec fn alike(self, t: u32, u: u32) -> bool {
        &&& t == self.builtin(id::ANY) <==> u == self.builtin(id::ANY)
        &&& t == self.builtin(id::BOTTOM) <==> u == self.builtin(id::BOTTOM)
        &&& self.name_of(self.supertype(t)) == self.name_of(self.supertype(u))
        &&& self.is_tuple(t) || {
            &&& self.parameters(t) == NULL <==> self.parameters(u) == NULL
            &&& self.svec_len(self.parameters(t)) == self.svec_len(self.parameters(u))
        }
    }

    /// The names of the data types of the heap are in order: objects of the kinds
    /// that a query tells apart are told apart by their tags, `Any` has no
    /// supertype but itself, and data types of one name are alike.
    pub open spec fn types_agree(self) -> bool {
        let tag = self.builtin(id::DATATYPE);
        &&& tag != NULL
        &&& tag != self.builtin(id::UNION)
        &&& tag != self.builtin(id::UNIONALL)
        &&& tag != self.builtin(id::TVAR)
        &&& tag != self.builtin(id::VARARG)
        &&& tag != self.builtin(id::INTERSECT)
        &&& tag != self.builtin(id::INT64)
        &&& self.builtin(id::UNION) != self.builtin(id::TVAR)
        &&& self.builtin(id::UNION) != self.builtin(id::VARARG)
        &&& self.builtin(id::ANY) != self.builtin(id::BOTTOM)
        &&& self.supertype(self.builtin(id::ANY)) == self.builtin(id::ANY)
        &&& forall|t: u32, u: u32| #[trigger] self.namesakes(t, u) ==> self.alike(t, u)
    }

    /// Whether `t` is a plain type that nests less than `d` deep.
    pub open spec fn plain_to(self, t: u32, d: nat) -> bool
        decreases d,
    {
        if d == 0 {
            false
        } else {
            &&& self.is_datatype(t)
            &&& !self.is_type_type(t)
            &&& self.supertype(t) != self.builtin(id::BOTTOM)
            &&& t == self.builtin(id::ANY) || self.plain_to(self.supertype(t), (d - 1) as nat)
            &&& forall|i: int|
                #![trigger self.svec_ref(self.parameters(t), i)]
                self.parameters(t) != NULL && 0 <= i < self.svec_len(self.parameters(t))
                    ==> self.plain_to(self.svec_ref(self.parameters(t), i), (d - 1) as nat)
        }
    }

    /// Whether `t` is a plain type.
    pub open spec fn plain(self, t: u32) -> bool {
        self.plain_to(t, self.objs.len())
    }

    /// Whether `x` is below `y`, for plain types that together nest less than `n`
    /// deep.
    pub open spec fn below(self, x: u32, y: u32, n: nat) -> bool
        decreases n,
    {
        if x == y || y == self.builtin(id::ANY) || x == self.builtin(id::BOTTOM) {
            true
        } else if n == 0 {
            false
        } else {
            match self.super_named(x, self.name_of(y), MAX_NESTING as nat) {
                None => false,
                Some(xd) => {
                    let px = self.parameters(xd);
                    let py = self.parameters(y);
                    if self.is_tuple(xd) {
                        &&& self.svec_seq(px).len() == self.svec_seq(py).len()
                        &&& forall|i: int|
                            #![trigger self.svec_ref(px, i)]
                            0 <= i < self.svec_seq(px).len() ==> self.below(
                                self.svec_ref(px, i),
                                self.svec_ref(py, i),
                                (n - 1) as nat,
                            )
                    } else {
                        px == NULL || py == NULL || forall|i: int|
                            #![trigger self.svec_ref(px, i)]
                            0 <= i < self.svec_len(px) ==> self.below(
                                self.svec_ref(px, i),
                                self.svec_ref(py, i),
                                (n - 1) as nat,
                            ) && self.below(
                                self.svec_ref(py, i),
                                self.svec_ref(px, i),
                                (n - 1) as nat,
                            )
                    }
                },
            }
        }
    }

    /// The number of proper supertypes of `t`.
    pub open spec fn rank(self, t: u32, d: nat) -> nat
        decreases d,
    {
        if d == 0 || t == self.builtin(id::ANY) {
            0
        } else {
            1 + self.rank(self.supertype(t), (d - 1) as nat)
        }
    }
}

/// Whether `e` holds the objects of `s`.
pub open spec fn same_objects(s: State, e: State) -> bool {
    s.objs == e.objs && s.builtins == e.builtins
}

/// Whether a query at `q` compares no lengths and stands less than `fuel` below the
/// deepest nesting of invariant positions.
pub open spec fn calm(q: Q, fuel: nat) -> bool {
    q.e.loffset == 0 && 0 <= q.e.invdepth && q.e.invdepth + fuel <= i32::MAX
}

/// Plainness up to a depth holds up to any larger one.
pub(crate) proof fn lemma_deeper(s: State, t: u32, d: nat, e: nat)
    requires
        s.plain_to(t, d),
        d <= e,
    ensures
        s.plain_to(t, e),
    decreases d,
{
    if t != s.builtin(id::ANY) {
        lemma_deeper(s, s.supertype(t), (d - 1) as nat, (e - 1) as nat);
    }
    let p = s.parameters(t);
    assert forall|i: int|
        #![trigger s.svec_ref(p, i)]
        p != NULL && 0 <= i < s.svec_len(p) implies s.plain_to(
        s.svec_ref(p, i),
        (e - 1) as nat,
    ) by {
        lemma_deeper(s, s.svec_ref(p, i), (d - 1) as nat, (e - 1) as nat);
    }
}

proof fn lemma_super_same(s: State, e: State, x: u32, name: u32, fuel: nat)
    requires
        same_objects(s, e),
    ensures
        s.super_named(x, name, fuel) == e.super_named(x, name, fuel),
    decreases fuel,
{
    if s.name_of(x) != name && fuel > 0 && s.supertype(x) != x {
        lemma_super_same(s, e, s.supertype(x), name, (fuel - 1) as nat);
    }
}

pub(crate) proof fn lemma_plain_same(s: State, e: State, t: u32, d: nat)
    requires
        same_objects(s, e),
    ensures
        s.plain_to(t, d) == e.plain_to(t, d),
    decreases d,
{
    if d > 0 {
        lemma_plain_same(s, e, s.supertype(t), (d - 1) as nat);
        let p = s.parameters(t);
        assert forall|i: int|
            s.plain_to(#[trigger] s.svec_ref(p, i), (d - 1) as nat) == e.plain_to(
                e.svec_ref(p, i),
                (d - 1) as nat,
            ) by {
            lemma_plain_same(s, e, s.svec_ref(p, i), (d - 1) as nat);
        }
        assert(forall|i: int| #[trigger] e.svec_ref(p, i) == s.svec_ref(p, i));
    }
}

proof fn lemma_below_kept(s: State, e: State, x: u32, y: u32, n: nat)
    requires
        same_objects(s, e),
        s.below(x, y, n),
    ensures
        e.below(x, y, n),
    decreases n,
{
    lemma_super_same(s, e, x, s.name_of(y), MAX_NESTING as nat);
    if n > 0 {
        match s.super_named(x, s.name_of(y), MAX_NESTING as nat) {
            None => {},
            Some(xd) => {
                let px = s.parameters(xd);
                let py = s.parameters(y);
                let m: nat = (n - 1) as nat;
                assert(s.svec_seq(px) =~= e.svec_seq(px));
                assert(s.svec_seq(py) =~= e.svec_seq(py));
                assert forall|i: int|
                    #![trigger e.svec_ref(px, i)]
                    s.below(s.svec_ref(px, i), s.svec_ref(py, i), m) implies e.below(
                    e.svec_ref(px, i),
                    e.svec_ref(py, i),
                    m,
                ) by {
                    lemma_below_kept(s, e, s.svec_ref(px, i), s.svec_ref(py, i), m);
                }
                assert forall|i: int|
                    #![trigger e.svec_ref(px, i)]
                    s.below(s.svec_ref(py, i), s.svec_ref(px, i), m) implies e.below(
                    e.svec_ref(py, i),
                    e.svec_ref(px, i),
                    m,
                ) by {
                    lemma_below_kept(s, e, s.svec_ref(py, i), s.svec_ref(px, i), m);
                }
                assert(forall|i: int| #[trigger] e.svec_ref(px, i) == s.svec_ref(px, i));
            },
        }
    }
}

pub(crate) proof fn lemma_below_same(s: State, e: State, x: u32, y: u32, n: nat)
    requires
        same_objects(s, e),
    ensures
        s.below(x, y, n) == e.below(x, y, n),
{
    if s.below(x, y, n) {
        lemma_below_kept(s, e, x, y, n);
    }
    if e.below(x, y, n) {
        lemma_below_kept(e, s, x, y, n);
    }
}

pub(crate) proof fn lemma_agree_same(s: State, e: State)
    requires
        same_objects(s, e),
        s.types_agree(),
    ensures
        e.types_agree(),
{
    assert forall|t: u32, u: u32| #[trigger] e.namesakes(t, u) implies e.alike(t, u) by {
        assert(s.namesakes(t, u));
    }
}

pub(crate) proof fn lemma_egal_same(s: State, e: State, a: u32, b: u32, d: nat, fuel: nat)
    requires
        same_objects(s, e),
        s.types_agree(),
        s.plain_to(a, d),
        s.plain_to(b, d),
        s.obviously_egal(a, b, fuel),
    ensures
        e.obviously_egal(a, b, fuel),
    decreases fuel,
{
    if a != b {
        let f: nat = (fuel - 1) as nat;
        let pa = s.parameters(a);
        let pb = s.parameters(b);
        assert forall|i: int| #![trigger e.svec_ref(pa, i)] 0 <= i < e.svec_len(pa) implies {
            e.obviously_egal(e.svec_ref(pa, i), e.svec_ref(pb, i), f)
        } by {
            let x = s.svec_ref(pa, i);
            let y = s.svec_ref(pb, i);
            lemma_egal_same(s, e, x, y, (d - 1) as nat, f);
        }
    }
}

/// Types of one name have equally many supertypes.
pub(crate) proof fn lemma_rank(s: State, t: u32, d: nat, u: u32, e: nat)
    requires
        s.types_agree(),
        s.plain_to(t, d),
        s.plain_to(u, e),
        s.name_of(t) == s.name_of(u),
    ensures
        s.rank(t, d) == s.rank(u, e),
    decreases d,
{
    assert(s.namesakes(t, u));
    if t != s.builtin(id::ANY) {
        lemma_rank(s, s.supertype(t), (d - 1) as nat, s.supertype(u), (e - 1) as nat);
    }
}

/// A supertype of a plain type is plain, and has fewer supertypes unless it is the
/// type itself.
pub(crate) proof fn lemma_super(s: State, x: u32, d: nat, name: u32, fuel: nat)
    requires
        s.types_agree(),
        s.plain_to(x, d),
    ensures
        match s.super_named(x, name, fuel) {
            None => s.name_of(x) != name,
            Some(xd) => {
                &&& s.plain_to(xd, d)
                &&& s.name_of(xd) == name
                &&& s.name_of(x) == name ==> xd == x
                &&& s.name_of(x) != name ==> s.rank(xd, d) < s.rank(x, d)
            },
        },
    decreases fuel,
{
    if s.name_of(x) != name && fuel > 0 && s.supertype(x) != x {
        let m: nat = (d - 1) as nat;
        lemma_super(s, s.supertype(x), m, name, (fuel - 1) as nat);
        match s.super_named(x, name, fuel) {
            None => {},
            Some(xd) => {
                lemma_deeper(s, xd, m, d);
                lemma_rank(s, xd, m, xd, d);
                lemma_deeper(s, s.supertype(x), m, d);
            },
        }
    }
}

/// Nothing but `Union{}` has its name among its supertypes.
pub(crate) proof fn lemma_not_bottom(s: State, y: u32, d: nat, x: u32, fuel: nat)
    requires
        s.types_agree(),
        s.plain_to(y, d),
        s.is_datatype(x),
        x == s.builtin(id::BOTTOM),
        y != x,
    ensures
        s.super_named(y, s.name_of(x), fuel) is None,
    decreases fuel,
{
    if s.name_of(y) == s.name_of(x) {
        assert(s.namesakes(y, x));
    } else if fuel > 0 && s.supertype(y) != y {
        lemma_not_bottom(s, s.supertype(y), (d - 1) as nat, x, (fuel - 1) as nat);
    }
}

/// Two types of different names are not below each other both ways.
proof fn lemma_apart(s: State, x: u32, dx: nat, y: u32, dy: nat, n: nat)
    requires
        s.types_agree(),
        s.plain_to(x, dx),
        s.plain_to(y, dy),
        s.name_of(x) != s.name_of(y),
    ensures
        !(s.below(x, y, n) && s.below(y, x, n)),
{
    let f = MAX_NESTING as nat;
    lemma_super(s, x, dx, s.name_of(y), f);
    lemma_super(s, y, dy, s.name_of(x), f);
    if x == s.builtin(id::BOTTOM) {
        lemma_not_bottom(s, y, dy, x, f);
    }
    if y == s.builtin(id::BOTTOM) {
        lemma_not_bottom(s, x, dx, y, f);
    }
    match (s.super_named(x, s.name_of(y), f), s.super_named(y, s.name_of(x), f)) {
        (Some(xd), Some(yd)) => {
            lemma_rank(s, xd, dx, y, dy);
            lemma_rank(s, yd, dy, x, dx);
        },
        _ => {},
    }
}

/// Types that are obviously equal are below each other.
pub(crate) proof fn lemma_egal_below(s: State, x: u32, dx: nat, y: u32, dy: nat, n: nat, fuel: nat)
    requires
        s.types_agree(),
        s.plain_to(x, dx),
        s.plain_to(y, dy),
        n >= dx + dy,
        s.obviously_egal(x, y, fuel) || s.obviously_egal(y, x, fuel),
    ensures
        s.below(x, y, n),
        s.below(y, x, n),
    decreases fuel,
{
    if x != y {
        let px = s.parameters(x);
        let py = s.parameters(y);
        let m: nat = (n - 1) as nat;
        assert forall|i: int| #![trigger s.svec_ref(px, i)] 0 <= i < s.svec_len(px) implies s.below(
            s.svec_ref(px, i),
            s.svec_ref(py, i),
            m,
        ) && s.below(s.svec_ref(py, i), s.svec_ref(px, i), m) by {
            let a = s.svec_ref(px, i);
            let b = s.svec_ref(py, i);
            lemma_egal_below(s, a, (dx - 1) as nat, b, (dy - 1) as nat, m, (fuel - 1) as nat);
        }
        assert(s.super_named(x, s.name_of(y), MAX_NESTING as nat) == Some(x));
        assert(s.super_named(y, s.name_of(x), MAX_NESTING as nat) == Some(y));
        assert forall|i: int| #![trigger s.svec_ref(py, i)] 0 <= i < s.svec_len(py) implies s.below(
            s.svec_ref(py, i),
            s.svec_ref(px, i),
            m,
        ) && s.below(s.svec_ref(px, i), s.svec_ref(py, i), m) by {
            let a = s.svec_ref(px, i);
        }
    }
}

/// Of types of one name that are no tuple types, either is below the other or
/// neither is.
proof fn lemma_mutual(s: State, x: u32, y: u32, n: nat)
    requires
        s.types_agree(),
        s.namesakes(x, y),
        !s.is_tuple(x),
    ensures
        s.below(x, y, n) == s.below(y, x, n),
{
    assert(s.namesakes(y, x));
    assert(s.super_named(x, s.name_of(y), MAX_NESTING as nat) == Some(x));
    assert(s.super_named(y, s.name_of(x), MAX_NESTING as nat) == Some(y));
    if n > 0 && x != y {
        let px = s.parameters(x);
        let py = s.parameters(y);
        let m: nat = (n - 1) as nat;
        if s.below(x, y, n) {
            assert forall|i: int|
                #![trigger s.svec_ref(py, i)]
                px != NULL && 0 <= i < s.svec_len(py) implies s.below(
                s.svec_ref(py, i),
                s.svec_ref(px, i),
                m,
            ) && s.below(s.svec_ref(px, i), s.svec_ref(py, i), m) by {
                let a = s.svec_ref(px, i);
            }
        }
        if s.below(y, x, n) {
            assert forall|i: int|
                #![trigger s.svec_ref(px, i)]
                px != NULL && 0 <= i < s.svec_len(px) implies s.below(
                s.svec_ref(px, i),
                s.svec_ref(py, i),
                m,
            ) && s.below(s.svec_ref(py, i), s.svec_ref(px, i), m) by {
                let b = s.svec_ref(py, i);
            }
        }
    }
}

/// A plain type mentions no variable.
pub(crate) proof fn lemma_closed(s: State, t: u32, d: nat, bound: Seq<u32>, e: Option<EnvV>, fuel: nat)
    requires
        s.types_agree(),
        s.plain_to(t, d),
        d <= fuel,
    ensures
        !s.has_free_var(t, bound, e, fuel),
    decreases fuel,
{
    let p = s.parameters(t);
    assert forall|i: int|
        #![trigger s.svec_ref(p, i)]
        p != NULL && 0 <= i < s.svec_len(p) implies !s.has_free_var(
        s.svec_ref(p, i),
        bound,
        e,
        (fuel - 1) as nat,
    ) by {
        lemma_closed(s, s.svec_ref(p, i), (d - 1) as nat, bound, e, (fuel - 1) as nat);
    }
}

/// A plain type is no tuple type with an unbounded tail.
proof fn lemma_definite(s: State, t: u32, d: nat)
    requires
        s.types_agree(),
        s.plain_to(t, d),
    ensures
        !s.is_indefinite_tuple(t),
{
    let p = s.parameters(t);
    assert(s.unwrap_unionall(t, MAX_NESTING as nat) == t);
    if p != NULL && s.svec_len(p) > 0 {
        let last = s.svec_ref(p, s.svec_len(p) - 1);
        assert(s.plain_to(last, (d - 1) as nat));
    }
}

/// A walk that leaves no trace answers the query at once.
pub(crate) proof fn lemma_once(s: State, a: u32, b: u32, ok: bool, fuel: nat)
    requires
        fuel >= 2,
        ({
            let q = Q { s: s.push_roots(seq![a, b]), e: EnvV::empty() };
            q.sub(a, b, Param::Top, (fuel - 2) as nat) == (q, ok)
        }),
    ensures
        s.subtype(a, b, fuel) == (s, ok),
{
    reveal(State::subtype);
    reveal(Q::forall_exists);
    reveal(Q::forall_loop);
    reveal(Q::exists_loop);
    reveal(Q::sub);
    reveal(Q::restore);
    let q = Q { s: s.push_roots(seq![a, b]), e: EnvV::empty() };
    let (q1, se) = q.save();
    assert(bounds(q.e.vars) =~= Seq::<u32>::empty());
    assert(q.s.push_roots(Seq::<u32>::empty()) =~= q.s);
    assert(q1 =~= q);
    assert(q.restore(se) =~= q);
    let f: nat = (fuel - 1) as nat;
    let n: nat = MAX_PASSES as nat;
    assert(q.exists_loop(a, b, Param::Top, se, f, n) == (q, ok));
    assert(q.forall_loop(a, b, Param::Top, se, f, n) == (q, ok));
    assert(q.release(se) =~= q);
    assert(q.forall_exists(a, b, Param::Top, fuel) == (q, ok));
    assert(q.s.pop_roots(2) =~= s);
}

/// The answer to a query on plain types, asked afresh.
proof fn lemma_query(s: State, x: u32, dx: nat, y: u32, dy: nat, n: nat, fuel: nat)
    requires
        s.types_agree(),
        s.plain_to(x, dx),
        s.plain_to(y, dy),
        dx <= MAX_NESTING,
        dy <= MAX_NESTING,
        n >= dx + dy,
        4 * (dx + dy) + 6 <= fuel <= i32::MAX,
    ensures
        s.subtype(x, y, fuel) == (s, s.below(x, y, n)),
    decreases dx + dy, 5nat, 0int,
{
    let t = s.push_roots(seq![x, y]);
    let q = Q { s: t, e: EnvV::empty() };
    lemma_agree_same(s, t);
    lemma_plain_same(s, t, x, dx);
    lemma_plain_same(s, t, y, dy);
    lemma_below_same(s, t, x, y, n);
    lemma_sub(q, x, dx, y, dy, Param::Top, n, (fuel - 2) as nat);
    lemma_once(s, x, y, s.below(x, y, n), fuel);
}

/// The answer to a query on plain types, asked within another one.
proof fn lemma_local(
    q: Q,
    x: u32,
    dx: nat,
    y: u32,
    dy: nat,
    param: Param,
    limit: int,
    n: nat,
    fuel: nat,
)
    requires
        q.s.types_agree(),
        q.s.plain_to(x, dx),
        q.s.plain_to(y, dy),
        dx <= MAX_NESTING,
        dy <= MAX_NESTING,
        n >= dx + dy,
        4 * (dx + dy) + 7 <= fuel <= i32::MAX,
    ensures
        q.local(x, y, param, limit, fuel) == (q, q.s.below(x, y, n)),
    decreases dx + dy, 6nat, 0int,
{
    reveal(Q::local);
    reveal(State::subtype);
    let f: nat = (fuel - 1) as nat;
    lemma_closed(q.s, x, dx, Seq::empty(), None, MAX_NESTING as nat);
    lemma_closed(q.s, y, dy, Seq::empty(), None, MAX_NESTING as nat);
    lemma_query(q.s, x, dx, y, dy, n, f);
    assert(q.s.subtype(x, y, f) == (q.s, q.s.below(x, y, n)));
    if q.s.obviously_in_union(y, x, MAX_NESTING as nat) {
        lemma_egal_below(q.s, y, dy, x, dx, n, (MAX_NESTING - 1) as nat);
    }
    assert(q.with_state(q.s) =~= q);
}

/// Equality of plain types by subtyping in both directions.
proof fn lemma_equal_slow(q: Q, x: u32, dx: nat, y: u32, dy: nat, n: nat, fuel: nat)
    requires
        q.s.types_agree(),
        q.s.plain_to(x, dx),
        q.s.plain_to(y, dy),
        dx <= MAX_NESTING,
        dy <= MAX_NESTING,
        n >= dx + dy,
        4 * (dx + dy) + 8 <= fuel,
        calm(q, fuel),
    ensures
        q.equal_slow(x, y, fuel) == (q, q.s.below(x, y, n) && q.s.below(y, x, n)),
    decreases dx + dy, 7nat, 0int,
{
    reveal(Q::equal_slow);
    reveal(Q::local);
    let s = q.s;
    let g: nat = (fuel - 1) as nat;
    lemma_local(q, x, dx, y, dy, Param::Invariant, 2, n, g);
    lemma_local(q, y, dy, x, dx, Param::Top, 0, n, g);
    let there = q.local(x, y, Param::Invariant, 2, g);
    let back = q.local(y, x, Param::Top, 0, g);
    assert(there == (q, s.below(x, y, n)));
    assert(back == (q, s.below(y, x, n)));
    assert(q.with_env(q.e.with_loffset(0)) =~= q);
    assert(q.e.l.restored(q.e.l.saved()) =~= q.e.l);
    assert(q.with_env(EnvV { l: q.e.l.restored(q.e.l.saved()), ..q.e }) =~= q);
}

/// Equality of plain types is being below each other.
#[verifier::rlimit(40)]
#[verifier::spinoff_prover]
proof fn lemma_equal(q: Q, x: u32, dx: nat, y: u32, dy: nat, n: nat, fuel: nat)
    requires
        q.s.types_agree(),
        q.s.plain_to(x, dx),
        q.s.plain_to(y, dy),
        dx <= MAX_NESTING,
        dy <= MAX_NESTING,
        n >= dx + dy,
        4 * (dx + dy) + 9 <= fuel,
        calm(q, fuel),
    ensures
        q.equal(x, y, fuel) == (q, q.s.below(x, y, n) && q.s.below(y, x, n)),
    decreases dx + dy, 8nat, 0int,
{
    let s = q.s;
    let f: nat = (fuel - 1) as nat;
    if s.obviously_egal(x, y, MAX_NESTING as nat) {
        lemma_egal_below(s, x, dx, y, dy, n, MAX_NESTING as nat);
        reveal(Q::equal);
    } else {
        lemma_definite(s, x, dx);
        lemma_definite(s, y, dy);
        if s.name_of(x) != s.name_of(y) {
            lemma_apart(s, x, dx, y, dy, n);
            reveal(Q::equal);
        } else if !s.is_tuple(x) {
            assert(s.namesakes(x, y));
            lemma_mutual(s, x, y, n);
            lemma_sub(q, x, dx, y, dy, Param::Invariant, n, f);
            reveal(Q::equal);
            reveal(Q::sub);
            let walk = q.sub(x, y, Param::Invariant, f);
            assert(q.equal(x, y, fuel) == walk);
        } else {
            lemma_equal_slow(q, x, dx, y, dy, n, f);
            reveal(Q::equal);
            reveal(Q::equal_slow);
            let walk = q.equal_slow(x, y, f);
            assert(q.equal(x, y, fuel) == walk);
        }
    }
}

/// Equality of invariant parameters, one by one.
proof fn lemma_params(
    q: Q,
    px: u32,
    dx: nat,
    py: u32,
    dy: nat,
    len: nat,
    k: nat,
    n: nat,
    fuel: nat,
)
    requires
        q.s.types_agree(),
        k <= len,
        forall|i: int|
            0 <= i < len ==> q.s.plain_to(#[trigger] q.s.svec_ref(px, i), dx),
        forall|i: int|
            0 <= i < len ==> q.s.plain_to(#[trigger] q.s.svec_ref(py, i), dy),
        dx <= MAX_NESTING,
        dy <= MAX_NESTING,
        n >= dx + dy,
        4 * (dx + dy) + 10 <= fuel,
        calm(q, fuel),
    ensures
        q.params_equal(px, py, len, k, fuel) == (q, forall|i: int|
            #![trigger q.s.svec_ref(px, i)]
            len - k <= i < len ==> q.s.below(q.s.svec_ref(px, i), q.s.svec_ref(py, i), n)
                && q.s.below(q.s.svec_ref(py, i), q.s.svec_ref(px, i), n)),
    decreases dx + dy, 9nat, k,
{
    reveal(Q::params_equal);
    reveal(Q::equal);
    if k > 0 {
        let i = len - k;
        let x = q.s.svec_ref(px, i);
        let y = q.s.svec_ref(py, i);
        let f: nat = (fuel - 1) as nat;
        lemma_equal(q, x, dx, y, dy, n, f);
        lemma_params(q, px, dx, py, dy, len, (k - 1) as nat, n, fuel);
        assert(q.equal(x, y, f) == (q, q.s.below(x, y, n) && q.s.below(y, x, n)));
        let rest = q.params_equal(px, py, len, (k - 1) as nat, fuel);
        assert(rest.0 == q);
    }
}

/// Tuple elements, one by one.
proof fn lemma_elements(
    q: Q,
    px: u32,
    dx: nat,
    py: u32,
    dy: nat,
    len: int,
    i: int,
    xi: u32,
    yi: u32,
    param: Param,
    n: nat,
    fuel: nat,
)
    requires
        q.s.types_agree(),
        0 <= i <= len,
        forall|k: int|
            0 <= k < len ==> q.s.plain_to(#[trigger] q.s.svec_ref(px, k), dx),
        forall|k: int|
            0 <= k < len ==> q.s.plain_to(#[trigger] q.s.svec_ref(py, k), dy),
        dx <= MAX_NESTING,
        dy <= MAX_NESTING,
        n >= dx + dy,
        4 * (dx + dy) + 5 <= fuel,
        calm(q, fuel),
    ensures
        q.sub_tail(px, py, len, len, i, i, 0, 0, xi, yi, param, fuel) == (q, forall|k: int|
            #![trigger q.s.svec_ref(px, k)]
            i <= k < len ==> q.s.below(q.s.svec_ref(px, k), q.s.svec_ref(py, k), n)),
    decreases dx + dy, 5nat, len - i,
{
    reveal(Q::sub_tail);
    reveal(Q::sub_tail_end);
    reveal(Q::sub);
    let f: nat = (fuel - 1) as nat;
    if i < len {
        let x = q.s.svec_ref(px, i);
        let y = q.s.svec_ref(py, i);
        lemma_sub(q, x, dx, y, dy, param, n, f);
        assert(q.sub(x, y, param, f) == (q, q.s.below(x, y, n)));
        lemma_elements(q, px, dx, py, dy, len, i + 1, x, y, param, n, fuel);
        let rest = q.sub_tail(px, py, len, len, i + 1, i + 1, 0, 0, x, y, param, fuel);
        assert(rest.0 == q);
    } else {
        assert(q.sub_tail_end(len, len, 0, 0, yi, f) == (q, true));
    }
}

/// The walk of two tuple types.
proof fn lemma_tuple(
    q: Q,
    x: u32,
    dx: nat,
    y: u32,
    dy: nat,
    param: Param,
    n: nat,
    fuel: nat,
)
    requires
        q.s.types_agree(),
        q.s.plain_to(x, dx),
        q.s.plain_to(y, dy),
        dx <= MAX_NESTING,
        dy <= MAX_NESTING,
        n + 2 >= dx + dy,
        4 * (dx + dy) + 2 <= fuel,
        calm(q, fuel),
    ensures
        ({
            let px = q.s.parameters(x);
            let py = q.s.parameters(y);
            q.sub_tuple(x, y, param, fuel) == (
                q,
                q.s.svec_seq(px).len() == q.s.svec_seq(py).len() && forall|i: int|
                    #![trigger q.s.svec_ref(px, i)]
                    0 <= i < q.s.svec_seq(px).len() ==> q.s.below(
                        q.s.svec_ref(px, i),
                        q.s.svec_ref(py, i),
                        n,
                    ),
            )
        }),
    decreases dx + dy, 2nat, 0int,
{
    reveal(Q::sub_tuple);
    reveal(Q::sub_tail);
    let s = q.s;
    let px = s.parameters(x);
    let py = s.parameters(y);
    let lx = s.svec_seq(px).len() as int;
    let ly = s.svec_seq(py).len() as int;
    if lx > 0 {
        assert(s.plain_to(s.svec_ref(px, lx - 1), (dx - 1) as nat));
    }
    if ly > 0 {
        assert(s.plain_to(s.svec_ref(py, ly - 1), (dy - 1) as nat));
    }
    if lx == ly {
        let f: nat = (fuel - 1) as nat;
        lemma_elements(
            q,
            px,
            (dx - 1) as nat,
            py,
            (dy - 1) as nat,
            lx,
            0,
            NULL,
            NULL,
            param,
            n,
            f,
        );
        let walk = q.sub_tail(px, py, lx, ly, 0, 0, 0, 0, NULL, NULL, param, f);
        assert(q.sub_tail_start(px, py, lx, ly, param, f) == walk);
    }
}

/// The walk of two plain types, past the test for unions.
#[verifier::rlimit(40)]
#[verifier::spinoff_prover]
pub(crate) proof fn lemma_vars(
    q: Q,
    x: u32,
    dx: nat,
    y: u32,
    dy: nat,
    param: Param,
    n: nat,
    fuel: nat,
)
    requires
        q.s.types_agree(),
        q.s.plain_to(x, dx),
        q.s.plain_to(y, dy),
        dx <= MAX_NESTING,
        dy <= MAX_NESTING,
        n >= dx + dy,
        4 * (dx + dy) + 4 <= fuel,
        calm(q, fuel),
    ensures
        q.sub_vars(x, y, param, fuel) == (q, q.s.below(x, y, n)),
    decreases dx + dy, 3nat, 0int,
{
    reveal(Q::sub_vars);
    reveal(Q::sub_ground);
    reveal(Q::sub_datatype);
    reveal(Q::sub_tuple);
    reveal(Q::params_equal);
    let s = q.s;
    let f: nat = (fuel - 1) as nat;
    let g: nat = (fuel - 2) as nat;
    let m: nat = (n - 1) as nat;
    let walk = q.sub_datatype(x, y, param, f);
    lemma_super(s, x, dx, s.name_of(y), MAX_NESTING as nat);
    if x != y && y != s.builtin(id::ANY) && x != s.builtin(id::BOTTOM) {
        match s.super_named(x, s.name_of(y), MAX_NESTING as nat) {
            None => {},
            Some(xd) => {
                assert(s.namesakes(xd, y));
                let px = s.parameters(xd);
                let py = s.parameters(y);
                if s.is_tuple(xd) {
                    let p = if param == Param::Top {
                        Param::Covariant
                    } else {
                        param
                    };
                    lemma_tuple(q, xd, dx, y, dy, p, m, g);
                    assert(walk == q.sub_tuple(xd, y, p, g));
                } else if px != NULL && py != NULL {
                    let q1 = q.with_env(q.e.with_depth(1));
                    let len = s.svec_len(px) as nat;
                    lemma_params(q1, px, (dx - 1) as nat, py, (dy - 1) as nat, len, len, m, g);
                    let inner = q1.params_equal(px, py, len, len, g);
                    assert(inner.0 == q1);
                    assert(q1.with_env(q1.e.with_depth(-1)) =~= q);
                    assert(walk == (q, inner.1));
                }
            },
        }
        assert(walk == (q, s.below(x, y, n)));
    }
    assert(q.sub_ground(x, y, param, fuel) == (q, s.below(x, y, n)));
}

/// The walk of two plain types.
proof fn lemma_sub(
    q: Q,
    x: u32,
    dx: nat,
    y: u32,
    dy: nat,
    param: Param,
    n: nat,
    fuel: nat,
)
    requires
        q.s.types_agree(),
        q.s.plain_to(x, dx),
        q.s.plain_to(y, dy),
        dx <= MAX_NESTING,
        dy <= MAX_NESTING,
        n >= dx + dy,
        4 * (dx + dy) + 4 <= fuel,
        calm(q, fuel),
    ensures
        q.sub(x, y, param, fuel) == (q, q.s.below(x, y, n)),
    decreases dx + dy, 4nat, 0int,
{
    reveal(Q::sub);
    reveal(Q::sub_right);
    reveal(Q::sub_vars);
    lemma_vars(q, x, dx, y, dy, param, n, fuel);
    let walk = q.sub_vars(x, y, param, fuel);
    assert(walk == (q, q.s.below(x, y, n)));
    assert(q.sub_right(x, y, param, fuel) == walk);
}

/// Whether no type nests exactly `k` deep.
spec fn unpassed(s: State, k: nat) -> bool {
    forall|u: u32| #[trigger] s.plain_to(u, (k + 1) as nat) ==> s.plain_to(u, k)
}

/// Where no type nests exactly `k` deep, none nests deeper.
proof fn lemma_stable(s: State, t: u32, k: nat, m: nat)
    requires
        unpassed(s, k),
        s.plain_to(t, m),
    ensures
        s.plain_to(t, k),
    decreases m,
{
    if m > k {
        let n: nat = (m - 1) as nat;
        if t != s.builtin(id::ANY) {
            lemma_stable(s, s.supertype(t), k, n);
        }
        let p = s.parameters(t);
        assert forall|i: int|
            #![trigger s.svec_ref(p, i)]
            p != NULL && 0 <= i < s.svec_len(p) implies s.plain_to(s.svec_ref(p, i), k) by {
            lemma_stable(s, s.svec_ref(p, i), k, n);
        }
        assert(s.plain_to(t, (k + 1) as nat));
    } else {
        lemma_deeper(s, t, m, k);
    }
}

/// The slots of the types that nest less than `d` deep.
spec fn slots_to(s: State, d: nat) -> Set<int> {
    Set::new(|i: int| 0 <= i < s.objs.len() && 8 * i <= u32::MAX && s.plain_to((8 * i) as u32, d))
}

/// A type that is found in the heap stands at the start of a slot.
proof fn lemma_slot(s: State, t: u32, d: nat)
    requires
        s.types_agree(),
        s.plain_to(t, d),
    ensures
        slots_to(s, d).contains(t as int / 8),
{
    assert(s.obj(t) is Some);
    assert(s.has_slot(t));
    assert((8 * (t as int / 8)) as u32 == t);
}

/// Up to the depth `k` there are `k` types, unless some smaller depth is never passed.
proof fn lemma_grows(s: State, k: nat)
    requires
        s.types_agree(),
    ensures
        slots_to(s, k).finite(),
        slots_to(s, k).len() <= s.objs.len(),
        slots_to(s, k).len() >= k || exists|j: nat| j < k && #[trigger] unpassed(s, j),
    decreases k,
{
    let all = vstd::set_lib::set_int_range(0, s.objs.len() as int);
    vstd::set_lib::lemma_int_range(0, s.objs.len() as int);
    assert(slots_to(s, k).subset_of(all));
    vstd::set_lib::lemma_len_subset(slots_to(s, k), all);
    if k > 0 {
        let j: nat = (k - 1) as nat;
        lemma_grows(s, j);
        let a = slots_to(s, j);
        let b = slots_to(s, k);
        if !unpassed(s, j) {
            let u = choose|u: u32| #[trigger] s.plain_to(u, (j + 1) as nat) && !s.plain_to(u, j);
            lemma_slot(s, u, k);
            let i = u as int / 8;
            assert((8 * i) as u32 == u) by {
                assert(s.obj(u) is Some);
            }
            assert(b.contains(i) && !a.contains(i));
            assert forall|x: int| a.contains(x) implies b.contains(x) by {
                lemma_deeper(s, (8 * x) as u32, j, k);
            }
            assert(a.insert(i).subset_of(b));
            vstd::set_lib::lemma_len_subset(a.insert(i), b);
        }
    }
}

/// A type nests no deeper than there are objects: what is plain to any depth is plain
/// to the number of the region's slots.
pub proof fn law_types_fit(s: State, t: u32, d: nat)
    requires
        s.types_agree(),
        s.plain_to(t, d),
    ensures
        s.plain(t),
{
    let k: nat = (s.objs.len() + 1) as nat;
    lemma_grows(s, k);
    let j = choose|j: nat| j < k && #[trigger] unpassed(s, j);
    lemma_stable(s, t, j, d);
    lemma_deeper(s, t, j, s.objs.len());
}

/// The answer to a query on plain types depends on the types alone, leaves no trace,
/// and is never short of depth: it is the same for every depth that has room for both.
pub proof fn law_plain_query(s: State, x: u32, y: u32, fuel: nat)
    requires
        s.types_agree(),
        s.plain(x),
        s.plain(y),
        8 * s.objs.len() <= REGION_SIZE,
        8 * s.objs.len() + 6 <= fuel <= MAX_NESTING,
    ensures
        s.subtype(x, y, fuel) == s.subtype(x, y, MAX_NESTING as nat),
        s.subtype(x, y, fuel).0 == s,
        s.subtype(x, y, fuel).1 == s.below(x, y, 2 * s.objs.len()),
{
    let d = s.objs.len();
    lemma_query(s, x, d, y, d, 2 * d, fuel);
    lemma_query(s, x, d, y, d, 2 * d, MAX_NESTING as nat);
}

/// A query on plain types within another one is answered as it is afresh, and leaves
/// the environment as it was.
pub proof fn law_nested_query(q: Q, x: u32, y: u32, param: Param, limit: int, fuel: nat)
    requires
        q.s.types_agree(),
        q.s.plain(x),
        q.s.plain(y),
        8 * q.s.objs.len() <= REGION_SIZE,
        8 * q.s.objs.len() + 7 <= fuel <= MAX_NESTING,
    ensures
        q.local(x, y, param, limit, fuel) == (q, q.s.subtype(x, y, MAX_NESTING as nat).1),
{
    let d = q.s.objs.len();
    lemma_local(q, x, d, y, d, param, limit, 2 * d, fuel);
    lemma_query(q.s, x, d, y, d, 2 * d, MAX_NESTING as nat);
}

/// A type is below itself at once, whatever the environment and the depth.
pub proof fn law_same_type_at_once(q: Q, x: u32, param: Param, fuel: nat)
    requires
        q.e.loffset == 0,
    ensures
        q.sub(x, x, param, fuel) == (q, true),
{
    reveal(Q::sub);
}

/// The walk of plain types within a query is answered as a query of its own, and leaves
/// the bindings, the depth and the offset as they were.
pub proof fn law_plain_walk(q: Q, x: u32, y: u32, param: Param, fuel: nat)
    requires
        q.s.types_agree(),
        q.s.plain(x),
        q.s.plain(y),
        8 * q.s.objs.len() <= REGION_SIZE,
        8 * q.s.objs.len() + 4 <= fuel,
        calm(q, fuel),
    ensures
        q.sub(x, y, param, fuel) == (q, q.s.subtype(x, y, MAX_NESTING as nat).1),
{
    let d = q.s.objs.len();
    lemma_sub(q, x, d, y, d, param, 2 * d, fuel);
    lemma_query(q.s, x, d, y, d, 2 * d, MAX_NESTING as nat);
}

/// Two tuple tails of plain elements compare by their elements, and by the lengths that
/// are left where both have one; the environment stays as it was.
#[verifier::rlimit(30)]
#[verifier::spinoff_prover]
pub proof fn law_tails_compare_elements(
    q: Q,
    vtx: u32,
    vty: u32,
    vx: int,
    vy: int,
    param: Param,
    fuel: nat,
)
    requires
        q.s.types_agree(),
        q.s.builtin(id::INT64) != q.s.builtin(id::TVAR),
        q.s.plain(q.s.vararg_elem(vtx)),
        q.s.plain(q.s.vararg_elem(vty)),
        8 * q.s.objs.len() <= REGION_SIZE,
        8 * q.s.objs.len() + 6 <= fuel,
        calm(q, fuel),
        ({
            let m = q.s.vararg_num(vtx);
            let n = q.s.vararg_num(vty);
            ||| m == NULL && n == NULL
            ||| m != NULL && n != NULL && q.s.is_boxed_long(m) && q.s.is_boxed_long(n)
                && q.s.unbox_int(m) + 1 != vx
        }),
    ensures
        ({
            let m = q.s.vararg_num(vtx);
            let n = q.s.vararg_num(vty);
            let elements = q.s.subtype(
                q.s.vararg_elem(vtx),
                q.s.vararg_elem(vty),
                MAX_NESTING as nat,
            ).1;
            q.sub_varargs(vtx, vty, vx, vy, param, fuel) == (
                q,
                elements && (m == NULL || q.s.unbox_int(m) - vx == q.s.unbox_int(n) - vy),
            )
        }),
{
    reveal(Q::sub_varargs);
    reveal(Q::sub);
    reveal(Q::equate_lengths);
    let x = q.s.vararg_elem(vtx);
    let y = q.s.vararg_elem(vty);
    let m = q.s.vararg_num(vtx);
    let n = q.s.vararg_num(vty);
    let f: nat = (fuel - 1) as nat;
    law_plain_walk(q, x, y, param, f);
    law_plain_walk(q, x, y, Param::Covariant, f);
    let first = q.sub(x, y, param, f);
    let second = q.sub(x, y, Param::Covariant, f);
    assert(first.0 == q && second == first);
    assert(q.length_binding(m) is None && q.length_binding(n) is None);
    assert(q.with_env(q.e.with_depth(1).with_depth(-1)) =~= q);
    let ends = q.equate_lengths(m, n, vx, vy, None, None, 0, 0, f);
    assert(ends == (q, m == NULL || q.s.unbox_int(m) - vx == q.s.unbox_int(n) - vy));
}

/// The parameters of a plain type are plain, one level down.
proof fn lemma_part(s: State, t: u32, i: int)
    requires
        s.plain(t),
        s.parameters(t) != NULL,
        0 <= i < s.svec_len(s.parameters(t)),
    ensures
        s.plain_to(s.svec_ref(s.parameters(t), i), (s.objs.len() - 1) as nat),
        s.plain(s.svec_ref(s.parameters(t), i)),
{
    lemma_deeper(
        s,
        s.svec_ref(s.parameters(t), i),
        (s.objs.len() - 1) as nat,
        s.objs.len(),
    );
}

/// The answer on parts, one level down.
proof fn lemma_parts(s: State, x: u32, y: u32, i: int)
    requires
        s.types_agree(),
        s.plain(x),
        s.plain(y),
        8 * s.objs.len() <= REGION_SIZE,
        s.parameters(x) != NULL,
        s.parameters(y) != NULL,
        0 <= i < s.svec_len(s.parameters(x)),
        i < s.svec_len(s.parameters(y)),
    ensures
        ({
            let a = s.svec_ref(s.parameters(x), i);
            let b = s.svec_ref(s.parameters(y), i);
            s.subtype(a, b, MAX_NESTING as nat).1 == s.below(
                a,
                b,
                (2 * s.objs.len() - 1) as nat,
            )
        }),
{
    lemma_part(s, x, i);
    lemma_part(s, y, i);
    let a = s.svec_ref(s.parameters(x), i);
    let b = s.svec_ref(s.parameters(y), i);
    let d: nat = (s.objs.len() - 1) as nat;
    lemma_query(s, a, d, b, d, (2 * s.objs.len() - 1) as nat, MAX_NESTING as nat);
}

/// Tuples are covariant: a tuple type is below another exactly if they have equally
/// many elements and each element is below the other's.
pub proof fn law_tuples_are_covariant(s: State, x: u32, y: u32)
    requires
        s.types_agree(),
        s.plain(x),
        s.plain(y),
        8 * s.objs.len() <= REGION_SIZE,
        s.is_tuple(x),
        s.is_tuple(y),
    ensures
        s.subtype(x, y, MAX_NESTING as nat).1 <==> {
            let xs = s.svec_seq(s.parameters(x));
            let ys = s.svec_seq(s.parameters(y));
            &&& xs.len() == ys.len()
            &&& forall|i: int|
                0 <= i < xs.len() ==> (#[trigger] s.subtype(
                    xs[i],
                    ys[i],
                    MAX_NESTING as nat,
                )).1
        },
{
    let px = s.parameters(x);
    let py = s.parameters(y);
    let xs = s.svec_seq(px);
    let ys = s.svec_seq(py);
    let m: nat = (2 * s.objs.len() - 1) as nat;
    assert(s.namesakes(x, y));
    law_plain_query(s, x, y, MAX_NESTING as nat);
    assert(s.super_named(x, s.name_of(y), MAX_NESTING as nat) == Some(x));
    if xs.len() == ys.len() {
        assert forall|i: int| #![trigger s.svec_ref(px, i)] 0 <= i < xs.len() implies s.subtype(
            xs[i],
            ys[i],
            MAX_NESTING as nat,
        ).1 == s.below(s.svec_ref(px, i), s.svec_ref(py, i), m) by {
            lemma_parts(s, x, y, i);
        }
        if x == y {
            assert forall|i: int| 0 <= i < xs.len() implies (#[trigger] s.subtype(
                xs[i],
                ys[i],
                MAX_NESTING as nat,
            )).1 by {
                lemma_parts(s, x, y, i);
            }
        } else {
            assert forall|i: int| 0 <= i < xs.len() implies (#[trigger] s.subtype(
                xs[i],
                ys[i],
                MAX_NESTING as nat,
            )).1 == s.below(s.svec_ref(px, i), s.svec_ref(py, i), m) by {
                lemma_parts(s, x, y, i);
            }
        }
    }
}

/// Other parameters are invariant: of two types of one name that are no tuple types,
/// one is below the other exactly if their parameters are below each other both ways.
pub proof fn law_parameters_are_invariant(s: State, x: u32, y: u32)
    requires
        s.types_agree(),
        s.plain(x),
        s.plain(y),
        8 * s.objs.len() <= REGION_SIZE,
        s.name_of(x) == s.name_of(y),
        !s.is_tuple(x),
    ensures
        s.subtype(x, y, MAX_NESTING as nat).1 <==> {
            let xs = s.svec_seq(s.parameters(x));
            let ys = s.svec_seq(s.parameters(y));
            forall|i: int|
                0 <= i < xs.len() ==> (#[trigger] s.subtype(xs[i], ys[i], MAX_NESTING as nat)).1
                    && s.subtype(ys[i], xs[i], MAX_NESTING as nat).1
        },
{
    let px = s.parameters(x);
    let py = s.parameters(y);
    let xs = s.svec_seq(px);
    let ys = s.svec_seq(py);
    let m: nat = (2 * s.objs.len() - 1) as nat;
    assert(s.namesakes(x, y));
    law_plain_query(s, x, y, MAX_NESTING as nat);
    assert(s.super_named(x, s.name_of(y), MAX_NESTING as nat) == Some(x));
    assert forall|i: int| #![trigger s.svec_ref(px, i)] 0 <= i < xs.len() implies {
        &&& s.subtype(xs[i], ys[i], MAX_NESTING as nat).1 == s.below(
            s.svec_ref(px, i),
            s.svec_ref(py, i),
            m,
        )
        &&& s.subtype(ys[i], xs[i], MAX_NESTING as nat).1 == s.below(
            s.svec_ref(py, i),
            s.svec_ref(px, i),
            m,
        )
    } by {
        lemma_parts(s, x, y, i);
        lemma_parts(s, y, x, i);
    }
    assert forall|i: int| 0 <= i < xs.len() implies {
        &&& (#[trigger] s.subtype(xs[i], ys[i], MAX_NESTING as nat)).1 == s.below(
            s.svec_ref(px, i),
            s.svec_ref(py, i),
            m,
        )
        &&& s.subtype(ys[i], xs[i], MAX_NESTING as nat).1 == s.below(
            s.svec_ref(py, i),
            s.svec_ref(px, i),
            m,
        )
    } by {
        let a = s.svec_ref(px, i);
    }
}

/// Names are nominal: between types of different names, other than `Union{}` and
/// `Any`, a type is below another exactly if its supertype is. So every type is
/// below its supertypes.
pub proof fn law_supertypes_are_above(s: State, x: u32, y: u32)
    requires
        s.types_agree(),
        s.plain(x),
        s.plain(y),
        8 * s.objs.len() <= REGION_SIZE,
        s.name_of(x) != s.name_of(y),
        x != s.builtin(id::BOTTOM),
        x != s.builtin(id::ANY),
    ensures
        s.subtype(x, y, MAX_NESTING as nat).1 == s.subtype(
            s.supertype(x),
            y,
            MAX_NESTING as nat,
        ).1,
{
    let z = s.supertype(x);
    let d = s.objs.len();
    lemma_deeper(s, z, (d - 1) as nat, d);
    law_plain_query(s, x, y, MAX_NESTING as nat);
    law_plain_query(s, z, y, MAX_NESTING as nat);
    lemma_reach(s, z, (d - 1) as nat, s.name_of(y), MAX_NESTING as nat, (MAX_NESTING - 1) as nat);
    let name = s.name_of(y);
    if z != x {
        assert(s.super_named(x, name, MAX_NESTING as nat) == s.super_named(
            z,
            name,
            (MAX_NESTING - 1) as nat,
        ));
    }
    if z == y {
        let p = s.parameters(y);
        let m: nat = (2 * d - 1) as nat;
        assert(forall|i: int| s.below(#[trigger] s.svec_ref(p, i), s.svec_ref(p, i), m));
        assert(s.below(x, y, 2 * d));
    } else {
        assert(s.below(x, y, 2 * d) == s.below(z, y, 2 * d));
    }
}

/// Depth to spare changes nothing in the search for a supertype.
pub(crate) proof fn lemma_reach(s: State, x: u32, d: nat, name: u32, f: nat, g: nat)
    requires
        s.types_agree(),
        s.plain_to(x, d),
        d <= f,
        d <= g,
    ensures
        s.super_named(x, name, f) == s.super_named(x, name, g),
    decreases d,
{
    if s.name_of(x) != name && x != s.builtin(id::ANY) {
        lemma_reach(s, s.supertype(x), (d - 1) as nat, name, (f - 1) as nat, (g - 1) as nat);
    }
}

} // verus!
