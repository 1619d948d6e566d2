//! What the instances of a struct type hold.

use vstd::prelude::*;
use crate::bytes::{lemma_word_read_other, lemma_word_read_write, with_word};
use crate::object::law_alloc_object;
use crate::region::NULL;
use crate::state::{State, Value};
use crate::writes::lemma_barrier;

verus! {

/// Whether the fields of `t` are references that lie beside each other in `v`, which
/// is not `t`.
pub open spec fn fields_apart(s: State, t: u32, v: u32) -> bool {
    let n = s.nfields_of(t);
    &&& s.obj(v) is Some
    &&& t / 8 != v / 8
    &&& forall|i: int| 0 <= i < n ==> #[trigger] s.field_isptr(t, i)
    &&& forall|i: int| 0 <= i < n ==> #[trigger] s.field_offset(t, i) + 4 <= s.data(v).len()
    &&& forall|i: int, j: int|
        0 <= i < j < n ==> #[trigger] s.field_offset(t, i) + 4 <= #[trigger] s.field_offset(t, j)
            || s.field_offset(t, j) + 4 <= s.field_offset(t, i)
}

/// Whether two heaps describe the fields of `t` alike.
spec fn described_alike(s: State, e: State, t: u32) -> bool {
    &&& e.nfields_of(t) == s.nfields_of(t)
    &&& e.layout(t) == s.layout(t)
    &&& forall|i: int, k: int| #[trigger] e.field_desc(t, i, k) == s.field_desc(t, i, k)
}

/// Heaps that describe the fields alike tell alike whether they lie beside each other.
proof fn lemma_apart(s: State, e: State, t: u32, v: u32)
    requires
        fields_apart(s, t, v),
        described_alike(s, e, t),
        e.obj(v) is Some,
        e.data(v).len() == s.data(v).len(),
    ensures
        fields_apart(e, t, v),
        forall|j: int| #[trigger] e.field_offset(t, j) == s.field_offset(t, j),
{
    assert forall|j: int| #[trigger] e.field_offset(t, j) == s.field_offset(t, j) by {
        assert(e.field_desc(t, j, 0) == s.field_desc(t, j, 0));
    }
    assert forall|j: int| #[trigger] e.field_isptr(t, j) == s.field_isptr(t, j) by {
        assert(e.field_desc(t, j, 2) == s.field_desc(t, j, 2));
    }
}

/// The store of a reference in an instance.
proof fn lemma_store(s: State, t: u32, v: u32, i: int, x: u32)
    requires
        fields_apart(s, t, v),
        0 <= i < s.nfields_of(t),
    ensures
        ({
            let e = s.set_field_raw(v, t, i, x);
            &&& described_alike(s, e, t)
            &&& fields_apart(e, t, v)
            &&& e.word(v, s.field_offset(t, i) as int) == x
            &&& forall|j: int|
                0 <= j < s.nfields_of(t) && j != i ==> e.word(
                    v,
                    #[trigger] s.field_offset(t, j) as int,
                ) == s.word(v, s.field_offset(t, j) as int)
        }),
{
    let at = s.field_offset(t, i) as int;
    let e = s.set_field_raw(v, t, i, x);
    let w = s.write_barrier(v, x);
    lemma_barrier(s, v, x);
    assert(w.obj(v) is Some);
    assert(e.data(v) == with_word(s.data(v), at, x));
    lemma_word_read_write(s.data(v), at, x);
    assert forall|u: u32| u / 8 != v / 8 implies #[trigger] e.data(u) == s.data(u) by {
        assert(w.data(u) == s.data(u));
    }
    assert(e.data(t) == s.data(t));
    assert(e.layouts == s.layouts);
    assert forall|j: int| 0 <= j < s.nfields_of(t) && j != i implies e.word(
        v,
        #[trigger] s.field_offset(t, j) as int,
    ) == s.word(v, s.field_offset(t, j) as int) by {
        lemma_word_read_other(s.data(v), at, s.field_offset(t, j) as int, x);
    }
    assert(described_alike(s, e, t));
    assert(e.obj(v) is Some);
    lemma_apart(s, e, t, v);
}

/// The stores of the arguments from `i` on.
proof fn lemma_stores(s: State, t: u32, v: u32, args: Seq<Value>, i: int)
    requires
        fields_apart(s, t, v),
        args.len() == s.nfields_of(t),
        0 <= i <= args.len(),
    ensures
        ({
            let e = s.set_fields(v, t, args, i);
            &&& described_alike(s, e, t)
            &&& forall|j: int|
                i <= j < args.len() ==> e.word(v, #[trigger] s.field_offset(t, j) as int)
                    == args[j].0
            &&& forall|j: int|
                0 <= j < i ==> e.word(v, #[trigger] s.field_offset(t, j) as int) == s.word(
                    v,
                    s.field_offset(t, j) as int,
                )
        }),
    decreases args.len() - i,
{
    if i < args.len() {
        let w = s.set_field_raw(v, t, i, args[i].0);
        lemma_store(s, t, v, i, args[i].0);
        lemma_stores(w, t, v, args, i + 1);
        assert forall|j: int| #[trigger] w.field_offset(t, j) == s.field_offset(t, j) by {
            assert(w.field_desc(t, j, 0) == s.field_desc(t, j, 0));
        }
        let e = s.set_fields(v, t, args, i);
        assert(e == w.set_fields(v, t, args, i + 1));
        assert forall|j: int| 0 <= j < args.len() implies e.word(
            v,
            #[trigger] s.field_offset(t, j) as int,
        ) == if j >= i {
            args[j].0
        } else {
            s.word(v, s.field_offset(t, j) as int)
        } by {
            assert(w.field_offset(t, j) == s.field_offset(t, j));
        }
    }
}

/// Whether `e` differs from `s` at most in what `v` holds, its length aside, and in what
/// the collector noted.
spec fn stored_in(s: State, e: State, v: u32) -> bool {
    &&& e.builtins == s.builtins
    &&& e.layouts == s.layouts
    &&& e.data(v).len() == s.data(v).len()
    &&& forall|u: u32| #[trigger] e.obj(u) is Some <==> s.obj(u) is Some
    &&& forall|u: u32| #[trigger] e.tag(u) == s.tag(u)
    &&& forall|u: u32| u / 8 != v / 8 ==> #[trigger] e.data(u) == s.data(u)
}

/// A copy reaches its destination only.
proof fn lemma_copy_stays(s: State, v: u32, at: int, x: u32, from: int, n: int, k: int)
    ensures
        stored_in(s, s.copy_payload(v, at, x, from, n, k), v),
    decreases n - k,
{
    if 0 <= k < n {
        let w = s.with_byte(v, at + k, s.byte(x, from + k));
        assert(stored_in(s, w, v));
        lemma_copy_stays(w, v, at, x, from, n, k + 1);
    }
}

/// The stores of arguments reach the instance only.
proof fn lemma_stores_stay(s: State, t: u32, v: u32, args: Seq<Value>, i: int)
    ensures
        stored_in(s, s.set_fields(v, t, args, i), v),
    decreases args.len() - i,
{
    if 0 <= i < args.len() {
        let x = args[i].0;
        let w = s.set_field_raw(v, t, i, x);
        assert(stored_in(s, w, v)) by {
            if s.field_isptr(t, i) {
                lemma_barrier(s, v, x);
                let b = s.write_barrier(v, x);
                assert forall|u: u32| #[trigger] w.obj(u) is Some <==> s.obj(u) is Some by {
                    assert(b.obj(u) is Some <==> s.obj(u) is Some);
                }
                assert forall|u: u32| #[trigger] w.tag(u) == s.tag(u) by {
                    assert(b.tag(u) == s.tag(u));
                }
                assert forall|u: u32| u / 8 != v / 8 implies #[trigger] w.data(u) == s.data(u) by {
                    assert(b.data(u) == s.data(u));
                }
                assert(b.data(v) == s.data(v));
            } else {
                lemma_copy_stays(
                    s,
                    v,
                    s.field_offset(t, i) as int,
                    x,
                    0,
                    s.field_size(t, i) as int,
                    0,
                );
            }
        }
        lemma_stores_stay(w, t, v, args, i + 1);
        assert(w.data(v).len() == s.data(v).len());
    }
}

/// A new instance is of the type, and holds the arguments, each in the field of its
/// place, where the fields are references. As many arguments are needed as the type has
/// fields.
pub proof fn law_instances_hold_their_arguments(s: State, t: u32, args: Seq<Value>, v: Value)
    requires
        s.new_struct(t, args).1 == Ok::<Value, Seq<u8>>(v),
        t % 4 == 0,
        ({
            let e = s.new_struct(t, args).0;
            &&& fields_apart(e, t, v.0)
            &&& e.instance_of(t) == NULL
            &&& e.nfields_of(t) == s.nfields_of(t)
        }),
    ensures
        ({
            let e = s.new_struct(t, args).0;
            &&& args.len() == s.nfields_of(t)
            &&& e.tag(v.0) == t
            &&& forall|i: int|
                0 <= i < args.len() ==> e.word(v.0, #[trigger] e.field_offset(t, i) as int)
                    == args[i].0
        }),
{
    reveal(State::new_struct);
    let e = s.new_struct(t, args).0;
    let n = args.len() as int;
    let roots = args.map_values(|v: Value| v.0);
    let c = s.push_roots(roots).misfit(t, args, 0).0;
    let (a, o) = c.alloc_object(t, c.size_of(t) as int);
    law_alloc_object(c, t, c.size_of(t) as int);
    if c.instance_of(t) != NULL {
        assert(e.instance_of(t) == c.instance_of(t));
    }
    assert(o == v.0);
    let w = a.set_fields(o, t, args, 0);
    assert(e == w.pop_roots(n));
    lemma_stores_stay(a, t, o, args, 0);
    assert(w.data(t) == a.data(t));
    assert(e.data(t) == w.data(t));
    assert(e.layout(t) == a.layout(t));
    assert(e.data(o) == w.data(o));
    assert forall|i: int, k: int| #[trigger] e.field_desc(t, i, k) == a.field_desc(t, i, k) by {}
    assert(described_alike(e, a, t));
    assert(a.obj(o) is Some);
    assert(a.data(o).len() == e.data(o).len());
    lemma_apart(e, a, t, o);
    assert(e.tag(o) == w.tag(o));
    lemma_stores(a, t, o, args, 0);
    assert forall|i: int| 0 <= i < args.len() implies e.word(
        v.0,
        #[trigger] e.field_offset(t, i) as int,
    ) == args[i].0 by {
        assert(a.field_offset(t, i) == e.field_offset(t, i));
    }
}

} // verus!
