//! What a global binding gives back: a module's table of bindings is read as it was
//! written, also where the table moves to a larger buffer.

use vstd::prelude::*;
use crate::gc::past_header;
use crate::array::next_capacity;
use crate::id;
use crate::memory::DATA;
use crate::region::NULL;
use crate::state::{State, Value};
use crate::writes::{
    lemma_barrier, lemma_copy, lemma_holds_same, lemma_marks_stay, lemma_more_refs_healthy,
    lemma_others_refs, lemma_reads_stay, lemma_refs_stay_heap, written,
};

verus! {

impl State {
    /// Whether `t` is the type of buffers of references to any values.
    pub open spec fn buffer_type(self, t: u32) -> bool {
        let dt = self.builtin(id::DATATYPE);
        let sv = self.builtin(id::SVEC);
        let any = self.builtin(id::ANY);
        &&& t != dt && t != sv
        &&& self.tag(t) == dt
        &&& self.tag(self.parameters(t)) == sv
        &&& self.svec_ref(self.parameters(t), 0) == any
        &&& self.tag(any) == dt
        &&& self.is_abstract(any)
        &&& self.instance_of(any) == NULL
    }

    /// Whether `b` is an array of references to any values, over a buffer of its own.
    pub open spec fn table_shape(self, b: u32) -> bool {
        let dt = self.builtin(id::DATATYPE);
        let sv = self.builtin(id::SVEC);
        let m = self.arr_mem(b);
        let at = self.tag(b);
        &&& self.obj(b) is Some
        &&& self.obj(m) is Some
        &&& self.data(b).len() >= 12
        &&& self.arr_offset(b) == 0
        &&& self.arr_len(b) <= self.mem_len(m)
        &&& self.data(m).len() == DATA + 4 * self.mem_len(m)
        &&& at != dt && at != sv && at != self.tag(m)
        &&& self.buffer_type(self.tag(m))
    }

    /// The values of the table `b`.
    pub open spec fn table(self, b: u32) -> Seq<u32> {
        Seq::new(
            self.arr_len(b) as nat,
            |k: int| self.word(self.arr_mem(b), DATA + 4 * k),
        )
    }

    /// Whether the table `b` is set up to its length and unset from there on.
    pub open spec fn table_ok(self, b: u32) -> bool {
        &&& self.table_shape(b)
        &&& forall|k: int| 0 <= k < self.arr_len(b) ==> #[trigger] self.table(b)[k] != NULL
        &&& forall|k: int|
            self.arr_len(b) <= k < self.mem_len(self.arr_mem(b)) ==> #[trigger] self.word(
                self.arr_mem(b),
                DATA + 4 * k,
            ) == NULL
    }
}

/// The value bound to `sym` in a table of alternating names and values.
pub open spec fn bound_in(t: Seq<u32>, sym: u32, i: int) -> Option<int>
    decreases t.len() - i,
{
    if i < 0 || i + 1 >= t.len() {
        None
    } else if t[i] == sym {
        Some(i)
    } else {
        bound_in(t, sym, i + 2)
    }
}

/// What is read of a table is what stands there.
proof fn lemma_get(s: State, b: u32, i: u32)
    requires
        s.table_ok(b),
        i < s.arr_len(b),
    ensures
        s.arr_get(b, i) == (s, Ok::<Value, Value>(Value(s.table(b)[i as int]))),
{
    reveal(State::mem_get);
    assert(s.table(b)[i as int] != NULL);
}

/// A value stored in a table changes one word of its buffer.
proof fn lemma_set(s: State, b: u32, i: u32, v: u32)
    requires
        s.table_shape(b),
        i < s.arr_len(b),
    ensures
        s.arr_set(b, i, v) == (s.set_ref(s.arr_mem(b), DATA + 4 * i, v), Ok::<(), Value>(())),
{
    reveal(State::mem_set);
    let m = s.arr_mem(b);
    assert(s.push_roots(seq![m, v]).pop_roots(2) =~= s);
}

/// What a store of a reference at word `k` of the block `m` does.
proof fn lemma_store(s: State, m: u32, k: int, v: u32)
    requires
        s.obj(m) is Some,
        0 <= k,
        DATA + 4 * k + 4 <= s.data(m).len(),
    ensures
        ({
            let e = s.set_ref(m, DATA + 4 * k, v);
            &&& e == (State { objs: e.objs, remembered: e.remembered, ..s })
            &&& forall|u: u32| #[trigger] e.obj(u) is Some <==> s.obj(u) is Some
            &&& forall|u: u32| #[trigger] e.tag(u) == s.tag(u)
            &&& forall|u: u32| u != m ==> #[trigger] e.data(u) == s.data(u)
            &&& e.data(m).len() == s.data(m).len()
            &&& e.word(m, DATA + 4 * k) == v
            &&& forall|j: int|
                0 <= j && j != k && DATA + 4 * j + 4 <= s.data(m).len() ==> #[trigger] e.word(
                    m,
                    DATA + 4 * j,
                ) == s.word(m, DATA + 4 * j)
            &&& e.word(m, 0) == s.word(m, 0)
        }),
{
    let a = s.write_barrier(m, v);
    lemma_barrier(s, m, v);
    let e = s.set_ref(m, DATA + 4 * k, v);
    assert(a.obj(m) is Some);
    crate::health::lemma_word_only_at(a, m, DATA + 4 * k, v);
    assert forall|u: u32| #[trigger] e.tag(u) == s.tag(u) by {
        if u != m {
            assert(e.obj(u) == a.obj(u));
        }
    }
    assert forall|u: u32| u != m implies #[trigger] e.data(u) == s.data(u) by {
        assert(e.obj(u) == a.obj(u));
    }
    assert forall|u: u32| #[trigger] e.obj(u) is Some <==> s.obj(u) is Some by {
        if u != m {
            assert(e.obj(u) == a.obj(u));
        }
    }
    crate::bytes::lemma_word_read_write(a.data(m), DATA + 4 * k, v);
    assert forall|j: int|
        0 <= j && j != k && DATA + 4 * j + 4 <= s.data(m).len() implies #[trigger] e.word(
        m,
        DATA + 4 * j,
    ) == s.word(m, DATA + 4 * j) by {
        crate::bytes::lemma_word_read_other(a.data(m), DATA + 4 * k, DATA + 4 * j, v);
    }
    crate::bytes::lemma_word_read_other(a.data(m), DATA + 4 * k, 0, v);
}

/// What writing the length of a table does.
proof fn lemma_set_len(s: State, b: u32, n: u32)
    requires
        s.obj(b) is Some,
        s.data(b).len() >= 12,
    ensures
        ({
            let e = s.with_word(b, 8, n);
            &&& e == (State { objs: e.objs, ..s })
            &&& crate::health::only_at(s, e, b)
            &&& forall|u: u32| #[trigger] e.tag(u) == s.tag(u)
            &&& forall|u: u32| u != b ==> #[trigger] e.data(u) == s.data(u)
            &&& e.data(b).len() == s.data(b).len()
            &&& e.word(b, 8) == n
            &&& e.word(b, 0) == s.word(b, 0)
            &&& e.word(b, 4) == s.word(b, 4)
        }),
{
    crate::health::lemma_word_only_at(s, b, 8, n);
    let e = s.with_word(b, 8, n);
    assert forall|u: u32| #[trigger] e.tag(u) == s.tag(u) by {
        if u != b {
            assert(e.obj(u) == s.obj(u));
        }
    }
    assert forall|u: u32| u != b implies #[trigger] e.data(u) == s.data(u) by {
        assert(e.obj(u) == s.obj(u));
    }
    crate::bytes::lemma_word_read_write(s.data(b), 8, n);
    crate::bytes::lemma_word_read_other(s.data(b), 8, 0, n);
    crate::bytes::lemma_word_read_other(s.data(b), 8, 4, n);
}

/// A store into the buffer of a table keeps its shape.
proof fn lemma_store_shape(s: State, b: u32, k: int, v: u32)
    requires
        s.table_shape(b),
        0 <= k < s.mem_len(s.arr_mem(b)),
    ensures
        s.set_ref(s.arr_mem(b), DATA + 4 * k, v).table_shape(b),
        s.set_ref(s.arr_mem(b), DATA + 4 * k, v).arr_mem(b) == s.arr_mem(b),
        s.set_ref(s.arr_mem(b), DATA + 4 * k, v).arr_len(b) == s.arr_len(b),
        s.set_ref(s.arr_mem(b), DATA + 4 * k, v).mem_len(s.arr_mem(b)) == s.mem_len(s.arr_mem(b)),
{
    let m = s.arr_mem(b);
    let e = s.set_ref(m, DATA + 4 * k, v);
    lemma_store(s, m, k, v);
    assert(b != m);
    assert(e.data(b) == s.data(b));
    let mt = s.tag(m);
    assert(mt != m);
    assert(e.tag(mt) == s.tag(mt));
    assert(e.data(mt) == s.data(mt));
    let p = s.parameters(mt);
    assert(p != m);
    assert(e.data(p) == s.data(p) && e.tag(p) == s.tag(p));
    let any = s.builtin(id::ANY);
    assert(any != m);
    assert(e.data(any) == s.data(any) && e.tag(any) == s.tag(any));
}

/// Assigning an element of a table replaces it.
proof fn lemma_assign(s: State, b: u32, i: u32, v: u32)
    requires
        s.table_ok(b),
        i < s.arr_len(b),
        v != NULL,
    ensures
        ({
            let (e, r) = s.arr_set(b, i, v);
            &&& r is Ok
            &&& e.table_ok(b)
            &&& e.table(b) == s.table(b).update(i as int, v)
            &&& e == (State { objs: e.objs, remembered: e.remembered, ..s })
            &&& forall|u: u32| u != s.arr_mem(b) ==> #[trigger] e.data(u) == s.data(u)
        }),
{
    lemma_set(s, b, i, v);
    let m = s.arr_mem(b);
    let e = s.set_ref(m, DATA + 4 * i, v);
    lemma_store(s, m, i as int, v);
    lemma_store_shape(s, b, i as int, v);
    assert(e.table(b) =~= s.table(b).update(i as int, v)) by {
        assert forall|k: int| 0 <= k < s.arr_len(b) implies #[trigger] e.word(m, DATA + 4 * k)
            == s.table(b).update(i as int, v)[k] by {
            if k != i {
                assert(e.word(m, DATA + 4 * k) == s.word(m, DATA + 4 * k));
            }
        }
    }
    assert forall|k: int| 0 <= k < e.arr_len(b) implies #[trigger] e.table(b)[k] != NULL by {
        assert(k == i || e.table(b)[k] == s.table(b)[k]);
    }
    assert forall|k: int| e.arr_len(b) <= k < e.mem_len(m) implies #[trigger] e.word(
        m,
        DATA + 4 * k,
    ) == NULL by {
        assert(s.word(m, DATA + 4 * k) == NULL);
    }
}

/// The state in which a value is appended where the buffer has room.
pub open spec fn appended(s: State, b: u32, v: u32) -> State {
    s.with_word(b, 8, (s.arr_len(b) + 1) as u32).set_ref(
        s.arr_mem(b),
        DATA + 4 * s.arr_len(b),
        v,
    )
}

/// Appending where the buffer has room.
proof fn lemma_append(s: State, b: u32, v: u32)
    requires
        s.table_ok(b),
        s.arr_len(b) < s.mem_len(s.arr_mem(b)),
        v != NULL,
    ensures
        ({
            let e = appended(s, b, v);
            &&& e.table_ok(b)
            &&& e.table(b) == s.table(b).push(v)
            &&& e.arr_mem(b) == s.arr_mem(b)
            &&& e.mem_len(e.arr_mem(b)) == s.mem_len(s.arr_mem(b))
            &&& e == (State { objs: e.objs, remembered: e.remembered, ..s })
            &&& forall|u: u32| #[trigger] e.tag(u) == s.tag(u)
            &&& forall|u: u32| #[trigger] e.obj(u) is Some <==> s.obj(u) is Some
            &&& forall|u: u32| u != b && u != s.arr_mem(b) ==> #[trigger] e.data(u) == s.data(u)
        }),
{
    let n = s.arr_len(b);
    let m = s.arr_mem(b);
    let a = s.with_word(b, 8, (n + 1) as u32);
    lemma_set_len(s, b, (n + 1) as u32);
    assert(b != m);
    assert(a.data(m) == s.data(m));
    let mt = s.tag(m);
    let any = s.builtin(id::ANY);
    assert(mt != b && any != b && s.parameters(mt) != b);
    assert(a.data(mt) == s.data(mt) && a.data(any) == s.data(any) && a.data(s.parameters(mt))
        == s.data(s.parameters(mt)));
    assert(a.table_shape(b));
    let e = a.set_ref(m, DATA + 4 * n, v);
    lemma_store(a, m, n as int, v);
    lemma_store_shape(a, b, n as int, v);
    assert(e.table(b) =~= s.table(b).push(v)) by {
        assert forall|k: int| 0 <= k < n + 1 implies #[trigger] e.word(m, DATA + 4 * k)
            == s.table(b).push(v)[k] by {
            if k < n {
                assert(e.word(m, DATA + 4 * k) == a.word(m, DATA + 4 * k));
                assert(s.table(b)[k] == s.word(m, DATA + 4 * k));
            }
        }
    }
    assert forall|k: int| 0 <= k < e.arr_len(b) implies #[trigger] e.table(b)[k] != NULL by {
        if k < n {
            assert(s.table(b)[k] != NULL);
        }
    }
    assert forall|k: int| e.arr_len(b) <= k < e.mem_len(m) implies #[trigger] e.word(
        m,
        DATA + 4 * k,
    ) == NULL by {
        assert(a.word(m, DATA + 4 * k) == s.word(m, DATA + 4 * k));
        assert(s.word(m, DATA + 4 * k) == NULL);
    }
    assert forall|u: u32| #[trigger] e.obj(u) is Some <==> s.obj(u) is Some by {
        assert(a.obj(u) is Some <==> e.obj(u) is Some);
        if u != b {
            assert(a.obj(u) == s.obj(u));
        }
    }
    assert forall|u: u32| #[trigger] e.tag(u) == s.tag(u) by {
        assert(a.tag(u) == s.tag(u));
    }
    assert forall|u: u32| u != b && u != m implies #[trigger] e.data(u) == s.data(u) by {
        assert(a.data(u) == s.data(u));
    }
}

/// Pushing where the buffer has room appends.
proof fn lemma_push_room(s: State, b: u32, v: u32)
    requires
        s.table_ok(b),
        s.arr_len(b) < s.mem_len(s.arr_mem(b)),
    ensures
        s.arr_push(b, v) == (appended(s, b, v), Ok::<(), Value>(())),
{
    reveal(State::arr_push);
    reveal(State::arr_grow);
    let n = s.arr_len(b);
    let m = s.arr_mem(b);
    let p = s.push_roots(seq![b, v]);
    assert(forall|u: u32| #[trigger] p.obj(u) == s.obj(u));
    let g = p.with_word(b, 8, (n + 1) as u32);
    assert(p.arr_grow(b, 1) == (g, Ok::<(), Value>(())));
    let a = s.with_word(b, 8, (n + 1) as u32);
    assert(g == (State { roots: p.roots, ..a }));
    lemma_set_len(s, b, (n + 1) as u32);
    assert(forall|u: u32| #[trigger] g.obj(u) == a.obj(u));
    assert(b != m);
    let mt = s.tag(m);
    let any = s.builtin(id::ANY);
    assert(mt != b && any != b && s.parameters(mt) != b);
    assert(a.data(m) == s.data(m));
    assert(a.data(mt) == s.data(mt) && a.data(any) == s.data(any) && a.data(s.parameters(mt))
        == s.data(s.parameters(mt)));
    assert(a.table_shape(b));
    assert(g.table_shape(b));
    lemma_set(g, b, n, v);
    let e = appended(s, b, v);
    let h = g.set_ref(m, DATA + 4 * n, v);
    assert(h == (State { roots: p.roots, ..e }));
    assert(h.pop_roots(2) =~= e);
}

// --- health -----------------------------------------------------------------

impl State {
    /// Whether the table `b` can grow: what its growth reads is there.
    pub open spec fn can_grow(self, b: u32) -> bool {
        let m = self.arr_mem(b);
        let any = self.builtin(id::ANY);
        let tn = self.shared_name(3);
        &&& self.healthy()
        &&& self.described()
        &&& self.good(b)
        &&& self.good(tn)
        &&& self.holds_refs(self.tag(b), 1)
        &&& self.tag(self.tag(b)) == self.builtin(id::DATATYPE)
        &&& self.tag(self.parameters(self.tag(b))) == self.builtin(id::SVEC)
        &&& self.svec_ref(self.parameters(self.tag(b)), 0) == any
        &&& self.is_memory_type(self.tag(m))
        &&& self.tag(b) != self.builtin(id::TYPENAME)
        &&& self.tag(m) != self.builtin(id::TYPENAME)
        &&& self.cache_ok(tn)
        &&& self.cache_lookup(tn, seq![any]) == self.tag(m)
        &&& any != NULL
    }
}

/// The references of a buffer of references.
proof fn lemma_buffer_refs(s: State, b: u32)
    requires
        s.table_shape(b),
        s.is_memory_type(s.tag(s.arr_mem(b))),
        s.tag(s.arr_mem(b)) != NULL,
    ensures
        ({
            let m = s.arr_mem(b);
            s.refs_of(m) == seq![s.tag(m)] + Seq::new(
                s.mem_len(m) as nat,
                |i: int| s.word(m, DATA + 4 * i),
            )
        }),
{
    reveal(State::refs_of);
    let m = s.arr_mem(b);
    let any = s.builtin(id::ANY);
    assert(s.elem_boxed(any));
    assert(s.refs_of(m) =~= seq![s.tag(m)] + Seq::new(
        s.mem_len(m) as nat,
        |i: int| s.word(m, DATA + 4 * i),
    ));
}

/// Appending within the buffer keeps a heap healthy.
proof fn lemma_append_healthy(s: State, b: u32, v: u32)
    requires
        s.table_ok(b),
        s.can_grow(b),
        s.unread(b),
        s.unread(s.arr_mem(b)),
        s.arr_len(b) < s.mem_len(s.arr_mem(b)),
        v != NULL,
        s.good(v),
    ensures
        ({
            let e = appended(s, b, v);
            &&& e.healthy()
            &&& e.root_list() == s.root_list()
            &&& forall|x: u32| #[trigger] s.good(x) ==> e.good(x)
        }),
{
    let n = s.arr_len(b);
    let m = s.arr_mem(b);
    let a = s.with_word(b, 8, (n + 1) as u32);
    let e = appended(s, b, v);
    lemma_table_reaches(s, b);
    assert(b != m);
    assert(s.good(m)) by {
        crate::health::lemma_good_closed(s, b, m);
    }
    lemma_set_len(s, b, (n + 1) as u32);
    lemma_length_refs(s, b);
    lemma_append(s, b, v);
    assert(s.reads(b, s.tag(b)) && s.reads(m, s.tag(m)));
    crate::health::lemma_reaches_ends(s, b, s.tag(m));
    lemma_append_refs(s, b, v);
    assert(written(s, a, b, b)) by {
        assert forall|u: u32| #[trigger] a.obj(u) is Some <==> s.obj(u) is Some by {
            assert(u != b ==> a.obj(u) == s.obj(u));
        }
    }
    assert(written(s, e, b, m));
    assert forall|u: u32| s.good(u) && s.obj(u) is Some implies #[trigger] a.refs_of(u)
        == s.refs_of(u) by {
        if u != b {
            lemma_others_refs(s, a, b, b, u);
        }
    }
    assert forall|u: u32| s.good(u) && s.obj(u) is Some && u != m implies #[trigger] e.refs_of(u)
        == s.refs_of(u) by {
        if u != b {
            lemma_others_refs(s, e, b, m, u);
        }
    }
    lemma_refs_stay_heap(s, a, b);
    assert forall|u: u32| #[trigger] a.is_marked(u) == s.is_marked(u) by {
        assert(u != b ==> a.obj(u) == s.obj(u));
    }
    assert(a.refs_of(m) == s.refs_of(m));
    assert forall|u: u32| u != m && a.is_marked(u) implies #[trigger] e.refs_of(u) == a.refs_of(
        u,
    ) by {
        assert(s.is_marked(u));
        assert(s.good(u));
        assert(a.refs_of(u) == s.refs_of(u));
    }
    assert forall|j: int|
        #![trigger e.refs_of(m)[j]]
        0 <= j < e.refs_of(m).len() implies e.refs_of(m)[j] == v || a.refs_of(m).contains(
        e.refs_of(m)[j],
    ) by {
        assert(e.refs_of(m).contains(e.refs_of(m)[j]));
    }
    crate::survival::law_store_keeps_heap(a, m, DATA + 4 * n, v);
    assert(a.obj(m) is Some);
    lemma_marks_stay(a, m, DATA + 4 * n, v);
    lemma_more_refs_healthy(s, e, b, m, v);
}

/// The length of a table is no reference.
proof fn lemma_length_refs(s: State, b: u32)
    requires
        s.table_shape(b),
        s.can_grow(b),
        s.tag(b) != b,
    ensures
        s.with_word(b, 8, (s.arr_len(b) + 1) as u32).refs_of(b) == s.refs_of(b),
{
    let at = s.tag(b);
    let a = s.with_word(b, 8, (s.arr_len(b) + 1) as u32);
    lemma_table_reaches(s, b);
    lemma_set_len(s, b, (s.arr_len(b) + 1) as u32);
    assert(a.data(at) == s.data(at));
    lemma_holds_same(s, a, at, 1);
    crate::uniquing::lemma_plain_refs(s, b, 1);
    crate::uniquing::lemma_plain_refs(a, b, 1);
    assert(a.word(b, 4 * 0int) == s.word(b, 4 * 0int));
    assert(a.refs_of(b) =~= s.refs_of(b));
}

/// The references of a table and of its buffer after a value was appended.
proof fn lemma_append_refs(s: State, b: u32, v: u32)
    requires
        s.table_ok(b),
        s.arr_len(b) < s.mem_len(s.arr_mem(b)),
        v != NULL,
        s.tag(b) != NULL && s.tag(b) != b && s.tag(b) != s.arr_mem(b),
        s.holds_refs(s.tag(b), 1),
        s.tag(s.arr_mem(b)) != NULL && s.tag(s.arr_mem(b)) != b && s.tag(s.arr_mem(b))
            != s.arr_mem(b),
        s.is_memory_type(s.tag(s.arr_mem(b))),
    ensures
        ({
            let e = appended(s, b, v);
            let m = s.arr_mem(b);
            &&& e.refs_of(b) == s.refs_of(b)
            &&& forall|x: u32| #[trigger]
                e.refs_of(m).contains(x) ==> x == v || s.refs_of(m).contains(x)
            &&& forall|x: u32|
                x != NULL && s.refs_of(m).contains(x) ==> #[trigger] e.refs_of(m).contains(x)
        }),
{
    let e = appended(s, b, v);
    let n = s.arr_len(b);
    let m = s.arr_mem(b);
    let at = s.tag(b);
    let mt = s.tag(m);
    lemma_append(s, b, v);
    assert(e.data(at) == s.data(at) && e.data(mt) == s.data(mt));
    assert(e.tag(b) == at && e.tag(m) == mt && e.tag(at) == s.tag(at) && e.tag(mt) == s.tag(mt));
    assert(e.refs_of(b) == s.refs_of(b)) by {
        lemma_holds_same(s, e, at, 1);
        crate::uniquing::lemma_plain_refs(s, b, 1);
        crate::uniquing::lemma_plain_refs(e, b, 1);
        assert(e.word(b, 4 * 0int) == s.word(b, 4 * 0int));
        assert(e.refs_of(b) =~= s.refs_of(b));
    }
    assert(e.is_memory_type(mt));
    let old = s.refs_of(m);
    let new = e.refs_of(m);
    assert(new =~= old.update(n + 1, v) && old[n + 1] == NULL && n + 1 < old.len()) by {
        lemma_buffer_refs(s, b);
        lemma_buffer_refs(e, b);
        assert forall|j: int| 0 <= j < new.len() implies #[trigger] new[j] == old.update(
            n + 1,
            v,
        )[j] by {
            if j > 0 {
                lemma_append_word(s, e, b, v, j - 1);
            }
        }
        assert(s.word(m, DATA + 4 * n) == NULL);
    }
    lemma_ref_set(old, n + 1, v);
}

/// The words of a buffer of which the table is longer by one value.
proof fn lemma_append_word(s: State, e: State, b: u32, v: u32, k: int)
    requires
        s.table_ok(b),
        e.table_ok(b),
        e.table(b) == s.table(b).push(v),
        e.arr_mem(b) == s.arr_mem(b),
        e.mem_len(e.arr_mem(b)) == s.mem_len(s.arr_mem(b)),
        0 <= k < s.mem_len(s.arr_mem(b)),
    ensures
        e.word(s.arr_mem(b), DATA + 4 * k) == if k == s.arr_len(b) {
            v
        } else {
            s.word(s.arr_mem(b), DATA + 4 * k)
        },
{
    let m = s.arr_mem(b);
    let n = s.arr_len(b);
    assert(s.table(b).len() == n && e.table(b).len() == n + 1);
    assert(e.arr_len(b) == n + 1);
    if k < n {
        assert(e.table(b)[k] == s.table(b)[k]);
    } else if k == n {
        assert(e.table(b)[k] == v);
    } else {
        assert(e.word(m, DATA + 4 * k) == NULL);
        assert(s.word(m, DATA + 4 * k) == NULL);
    }
}

/// The references after one that was unset was set.
proof fn lemma_ref_set(old: Seq<u32>, i: int, v: u32)
    requires
        0 <= i < old.len(),
        old[i] == NULL,
    ensures
        forall|x: u32| #[trigger] old.update(i, v).contains(x) ==> x == v || old.contains(x),
        forall|x: u32| x != NULL && old.contains(x) ==> #[trigger] old.update(i, v).contains(x),
{
    let new = old.update(i, v);
    assert forall|x: u32| #[trigger] new.contains(x) implies x == v || old.contains(x) by {
        let j = choose|j: int| 0 <= j < new.len() && new[j] == x;
        if j != i {
            assert(old[j] == x);
        }
    }
    assert forall|x: u32| x != NULL && old.contains(x) implies #[trigger] new.contains(x) by {
        let j = choose|j: int| 0 <= j < old.len() && old[j] == x;
        assert(new[j] == old[j]);
    }
}

// --- growth -----------------------------------------------------------------

/// A word of a buffer to which the bytes of another were copied.
proof fn lemma_copied_word(d: Seq<u8>, e: Seq<u8>, i: int)
    requires
        crate::bytes::word_fits(d, i),
        crate::bytes::word_fits(e, i),
        forall|j: int| i <= j < i + 4 ==> #[trigger] d[j] == e[j],
    ensures
        crate::bytes::word_at(d, i) == crate::bytes::word_at(e, i),
{
}

/// The state in which the zeroed block `m2` was made a buffer of `cap` elements, to
/// which the `n` elements of the buffer `m` were copied.
spec fn copied(x: State, m: u32, m2: u32, n: u32, cap: u32) -> State {
    x.with_word(m2, 0, cap).with_word(m2, 4, past_header(m2)).copy_payload(
        m2,
        DATA as int,
        m,
        DATA as int,
        n * 4,
        0,
    )
}

/// A larger buffer holds the elements that were copied to it, and is unset behind
/// them.
proof fn lemma_copied(x: State, m: u32, m2: u32, n: u32, cap: u32)
    requires
        m != m2,
        x.obj(m2) is Some,
        n < cap,
        x.data(m2) == crate::bytes::zeros((DATA + 4 * cap) as nat),
        x.data(m).len() == DATA + 4 * n,
    ensures
        ({
            let e = copied(x, m, m2, n, cap);
            &&& crate::health::only_at(x, e, m2)
            &&& e.tag(m2) == x.tag(m2)
            &&& e.data(m2).len() == DATA + 4 * cap
            &&& e.mem_len(m2) == cap
            &&& forall|k: int|
                0 <= k < n ==> #[trigger] e.word(m2, DATA + 4 * k) == x.word(m, DATA + 4 * k)
            &&& forall|k: int| n <= k < cap ==> #[trigger] e.word(m2, DATA + 4 * k) == NULL
        }),
{
    let a = x.with_word(m2, 0, cap);
    let c = a.with_word(m2, 4, past_header(m2));
    crate::health::lemma_word_only_at(x, m2, 0, cap);
    crate::health::lemma_word_only_at(a, m2, 4, past_header(m2));
    crate::health::lemma_only_at_trans(x, a, c, m2);
    assert(c.data(m) == x.data(m)) by {
        assert(c.obj(m) == x.obj(m));
    }
    assert(a.data(m2) == crate::bytes::with_word(x.data(m2), 0, cap));
    assert(c.data(m2) == crate::bytes::with_word(a.data(m2), 4, past_header(m2)));
    lemma_copy(c, m2, DATA as int, m, DATA as int, n * 4, 0);
    let e = copied(x, m, m2, n, cap);
    crate::health::lemma_only_at_trans(x, c, e, m2);
    assert(e.mem_len(m2) == cap) by {
        crate::bytes::lemma_word_read_write(x.data(m2), 0, cap);
        crate::bytes::lemma_word_read_other(a.data(m2), 4, 0, past_header(m2));
        lemma_copied_word(c.data(m2), e.data(m2), 0);
    }
    assert forall|k: int| 0 <= k < n implies #[trigger] e.word(m2, DATA + 4 * k) == x.word(
        m,
        DATA + 4 * k,
    ) by {
        lemma_copied_word(x.data(m), e.data(m2), DATA + 4 * k);
    }
    assert forall|k: int| n <= k < cap implies #[trigger] e.word(m2, DATA + 4 * k) == NULL by {
        lemma_copied_word(x.data(m2), e.data(m2), DATA + 4 * k);
    }
}

/// What pointing a table at another buffer does.
proof fn lemma_retarget(s: State, b: u32, m: u32)
    requires
        s.obj(b) is Some,
        s.data(b).len() >= 12,
    ensures
        ({
            let e = s.set_ref(b, 0, m);
            &&& e == (State { objs: e.objs, remembered: e.remembered, ..s })
            &&& forall|u: u32| #[trigger] e.obj(u) is Some <==> s.obj(u) is Some
            &&& forall|u: u32| #[trigger] e.tag(u) == s.tag(u)
            &&& forall|u: u32| u != b ==> #[trigger] e.data(u) == s.data(u)
            &&& e.data(b).len() == s.data(b).len()
            &&& e.word(b, 0) == m
            &&& e.word(b, 4) == s.word(b, 4)
            &&& e.word(b, 8) == s.word(b, 8)
        }),
{
    lemma_barrier(s, b, m);
    let a = s.write_barrier(b, m);
    let e = s.set_ref(b, 0, m);
    assert(a.obj(b) is Some);
    crate::health::lemma_word_only_at(a, b, 0, m);
    assert forall|u: u32| #[trigger] e.tag(u) == s.tag(u) by {
        assert(a.tag(u) == s.tag(u));
        if u != b {
            assert(e.obj(u) == a.obj(u));
        }
    }
    assert forall|u: u32| u != b implies #[trigger] e.data(u) == s.data(u) by {
        assert(e.obj(u) == a.obj(u));
        assert(a.data(u) == s.data(u));
    }
    assert forall|u: u32| #[trigger] e.obj(u) is Some <==> s.obj(u) is Some by {
        assert(a.obj(u) is Some <==> s.obj(u) is Some);
        if u != b {
            assert(e.obj(u) == a.obj(u));
        }
    }
    crate::bytes::lemma_word_read_write(a.data(b), 0, m);
    crate::bytes::lemma_word_read_other(a.data(b), 0, 4, m);
    crate::bytes::lemma_word_read_other(a.data(b), 0, 8, m);
}

/// A table that was pointed at another full buffer.
proof fn lemma_retargeted(x: State, b: u32, m2: u32, n: u32)
    requires
        x.obj(b) is Some,
        x.obj(m2) is Some,
        b != m2,
        x.data(b).len() >= 12,
        x.arr_offset(b) == 0,
        x.arr_len(b) == n,
        n <= x.mem_len(m2),
        x.data(m2).len() == DATA + 4 * x.mem_len(m2),
        x.buffer_type(x.tag(m2)),
        x.tag(b) != x.builtin(id::DATATYPE) && x.tag(b) != x.builtin(id::SVEC),
        x.tag(b) != x.tag(m2),
        forall|k: int| 0 <= k < n ==> #[trigger] x.word(m2, DATA + 4 * k) != NULL,
        forall|k: int| n <= k < x.mem_len(m2) ==> #[trigger] x.word(m2, DATA + 4 * k) == NULL,
    ensures
        ({
            let e = x.set_ref(b, 0, m2);
            &&& e.table_ok(b)
            &&& e.arr_mem(b) == m2
            &&& e.arr_len(b) == n
            &&& e.mem_len(m2) == x.mem_len(m2)
            &&& e.table(b) == Seq::new(n as nat, |k: int| x.word(m2, DATA + 4 * k))
        }),
{
    let e = x.set_ref(b, 0, m2);
    lemma_retarget(x, b, m2);
    let mt = x.tag(m2);
    let any = x.builtin(id::ANY);
    let k = x.parameters(mt);
    assert(mt != b && k != b && any != b);
    assert(e.data(m2) == x.data(m2));
    assert(e.data(mt) == x.data(mt) && e.tag(mt) == x.tag(mt));
    assert(e.data(k) == x.data(k) && e.tag(k) == x.tag(k));
    assert(e.data(any) == x.data(any) && e.tag(any) == x.tag(any));
    assert(e.tag(b) == x.tag(b) && e.tag(m2) == mt);
    assert(e.table_shape(b));
    assert forall|j: int| e.arr_len(b) <= j < e.mem_len(m2) implies #[trigger] e.word(
        m2,
        DATA + 4 * j,
    ) == NULL by {
        assert(x.word(m2, DATA + 4 * j) == NULL);
    }
    assert forall|j: int| 0 <= j < e.arr_len(b) implies #[trigger] e.table(b)[j] != NULL by {
        assert(x.word(m2, DATA + 4 * j) != NULL);
    }
    assert(e.table(b) =~= Seq::new(n as nat, |j: int| x.word(m2, DATA + 4 * j)));
}

/// The instantiation found in a cache depends on the types in it alone.
proof fn lemma_cached_same(s: State, e: State, cache: u32, params: Seq<u32>, i: int)
    requires
        e.data(cache) == s.data(cache),
        forall|j: int|
            0 <= j < s.svec_len(cache) ==> e.data(#[trigger] s.svec_ref(cache, j)) == s.data(
                s.svec_ref(cache, j),
            ) && e.data(s.parameters(s.svec_ref(cache, j))) == s.data(
                s.parameters(s.svec_ref(cache, j)),
            ),
    ensures
        e.cached_from(cache, params, i) == s.cached_from(cache, params, i),
    decreases s.svec_len(cache) - i,
{
    if !(i < 0 || i >= s.svec_len(cache)) {
        lemma_cached_same(s, e, cache, params, i + 1);
        let c = s.svec_ref(cache, i);
        assert(e.svec_ref(cache, i) == c);
        let p = s.parameters(c);
        assert(e.parameters(c) == p);
        assert(e.svec_seq(p) =~= s.svec_seq(p));
    }
}

/// What a table needs to grow stays where no other object than it and its buffer is
/// written.
#[verifier::rlimit(100)]
#[verifier::spinoff_prover]
proof fn lemma_can_grow_stays(s: State, e: State, b: u32)
    requires
        s.table_shape(b),
        s.can_grow(b),
        s.unread(b),
        s.unread(s.arr_mem(b)),
        e.healthy(),
        forall|x: u32| #[trigger] s.good(x) ==> e.good(x),
        e.builtins == s.builtins,
        e.layouts == s.layouts,
        forall|u: u32| #[trigger] e.tag(u) == s.tag(u),
        forall|u: u32| u != b && u != s.arr_mem(b) ==> #[trigger] e.data(u) == s.data(u),
        e.arr_mem(b) == s.arr_mem(b),
    ensures
        e.can_grow(b),
{
    crate::slots::lemma_empty_places(s, 0, 0);
    assert(s.obj(NULL) is None);
    let m = s.arr_mem(b);
    let at = s.tag(b);
    let mt = s.tag(m);
    let dt = s.builtin(id::DATATYPE);
    let tt = s.builtin(id::TYPENAME);
    let sv = s.builtin(id::SVEC);
    let any = s.builtin(id::ANY);
    let tn = s.shared_name(3);
    lemma_table_reaches(s, b);
    assert(s.good(m) && s.good(mt)) by {
        crate::health::lemma_good_closed(s, b, m);
        crate::health::lemma_good_closed(s, b, mt);
    }
    assert(s.reads(b, at) && s.reads(m, mt));
    assert(at != b && at != m && mt != m && mt != b);
    assert(s.obj(mt) is Some);
    assert(s.reads(mt, dt));
    assert(dt != b && dt != m);
    assert(s.obj(tn) is Some);
    assert(s.reads(tn, tt));
    assert(tt != b && tt != m);
    assert(tn != b && tn != m);
    assert(any != b && any != m);
    assert(e.data(at) == s.data(at) && e.data(mt) == s.data(mt));
    assert(e.data(dt) == s.data(dt) && e.data(tt) == s.data(tt));
    assert(e.data(tn) == s.data(tn));
    let k = s.parameters(at);
    assert(k != b && k != m);
    assert(e.data(k) == s.data(k));
    lemma_holds_same(s, e, dt, 5);
    lemma_holds_same(s, e, tt, 3);
    lemma_holds_same(s, e, at, 1);
    let sy = s.builtin(id::SYMBOL);
    let mo = s.builtin(id::MODULE);
    assert(s.tag(sy) == dt && s.tag(mo) == dt && s.tag(b) != dt && s.tag(m) != dt);
    assert(e.data(sy) == s.data(sy) && e.data(mo) == s.data(mo));
    lemma_holds_same(s, e, sy, 0);
    lemma_holds_same(s, e, mo, 3);
    assert(e.described());
    let cache = s.word(tn, 4);
    assert(e.word(tn, 4) == cache);
    assert(cache != b && cache != m);
    assert(e.data(cache) == s.data(cache));
    assert(e.svec_seq(cache) =~= s.svec_seq(cache));
    assert forall|j: int| 0 <= j < s.svec_len(cache) implies e.data(
        #[trigger] s.svec_ref(cache, j),
    ) == s.data(s.svec_ref(cache, j)) && e.data(s.parameters(s.svec_ref(cache, j))) == s.data(
        s.parameters(s.svec_ref(cache, j)),
    ) by {
        assert(cache != NULL);
        let c = s.svec_seq(cache)[j];
        assert(c == s.svec_ref(cache, j));
        assert(c != b && c != m);
        assert(s.parameters(c) != b && s.parameters(c) != m);
        assert(e.data(s.parameters(c)) == s.data(s.parameters(c)));
    }
    assert forall|i: int| 0 <= i < e.svec_seq(cache).len() implies ({
        let c = #[trigger] e.svec_seq(cache)[i];
        &&& e.tag(c) == dt
        &&& e.parameters(c) == NULL || e.tag(e.parameters(c)) == sv
    }) by {
        let c = s.svec_seq(cache)[i];
        assert(c == s.svec_ref(cache, i));
        assert(e.data(c) == s.data(c));
    }
    lemma_cached_same(s, e, cache, seq![any], 0);
}

/// The objects that growth of a table reads are reached from it.
proof fn lemma_parts_reached(s: State, b: u32)
    requires
        s.table_shape(b),
        s.obj(NULL) is None,
        s.builtin(id::DATATYPE) != NULL,
        s.builtin(id::SVEC) != NULL,
        s.builtin(id::DATATYPE) != s.builtin(id::SVEC),
        s.holds_refs(s.builtin(id::DATATYPE), 5),
        s.holds_refs(s.tag(b), 1),
        s.tag(s.tag(b)) == s.builtin(id::DATATYPE),
        s.is_memory_type(s.tag(s.arr_mem(b))),
    ensures
        s.tag(b) != NULL,
        s.tag(s.arr_mem(b)) % 4 == 0,
        s.reaches(b, b),
        s.reaches(b, s.tag(b)),
        s.reaches(b, s.arr_mem(b)),
        s.reaches(b, s.tag(s.arr_mem(b))),
        s.reaches(b, s.parameters(s.tag(s.arr_mem(b)))),
{
    let m = s.arr_mem(b);
    let at = s.tag(b);
    let mt = s.tag(m);
    let k = s.parameters(mt);
    assert(at != NULL && mt != NULL && k != NULL) by {
        assert(s.obj(NULL) is None);
    }
    assert(s.obj(mt) is Some && s.obj(k) is Some && s.obj(at) is Some);
    assert(s.has_slot(mt));
    assert(s.reaches(b, b)) by {
        crate::survival::lemma_reaches_self(s, b);
    }
    assert(s.refs_of(b).contains(at) && s.refs_of(b).contains(m)) by {
        crate::uniquing::lemma_plain_refs(s, b, 1);
        assert(s.refs_of(b)[0] == at);
        assert(s.refs_of(b)[1] == s.word(b, 4 * 0int));
    }
    assert(s.reaches(b, at)) by {
        crate::health::lemma_reaches_ref(s, b, at);
    }
    assert(s.reaches(b, m)) by {
        crate::health::lemma_reaches_ref(s, b, m);
    }
    assert(s.refs_of(m).contains(mt)) by {
        lemma_buffer_refs(s, b);
        assert(s.refs_of(m)[0] == mt);
    }
    assert(s.reaches(b, mt)) by {
        crate::health::lemma_reaches_ref(s, m, mt);
        crate::health::lemma_reaches_trans(s, b, m, mt);
    }
    assert(s.refs_of(mt).contains(k)) by {
        crate::uniquing::lemma_plain_refs(s, mt, 5);
        assert(s.refs_of(mt)[3] == s.word(mt, 4 * 2int));
    }
    assert(s.reaches(b, k)) by {
        crate::health::lemma_reaches_ref(s, mt, k);
        crate::health::lemma_reaches_trans(s, b, mt, k);
    }
}

/// The same for a table that can grow.
proof fn lemma_table_reaches(s: State, b: u32)
    requires
        s.table_shape(b),
        s.can_grow(b),
    ensures
        s.obj(NULL) is None,
        s.tag(b) != NULL,
        s.tag(s.arr_mem(b)) % 4 == 0,
        s.reaches(b, b),
        s.reaches(b, s.tag(b)),
        s.reaches(b, s.arr_mem(b)),
        s.reaches(b, s.tag(s.arr_mem(b))),
        s.reaches(b, s.parameters(s.tag(s.arr_mem(b)))),
{
    crate::slots::lemma_empty_places(s, 0, 0);
    lemma_parts_reached(s, b);
}

/// The new buffer of a table that grows, whose type was made before.
proof fn lemma_buffer(s: State, b: u32, v: u32, cap: u32)
    requires
        s.table_shape(b),
        s.can_grow(b),
    ensures
        ({
            let any = s.builtin(id::ANY);
            let (g, m2) = s.push_roots(seq![b, v, b, any]).alloc_object(
                s.tag(s.arr_mem(b)),
                DATA + 4 * cap,
            );
            let x = g.pop_roots(1);
            let p = s.push_roots(seq![b, v]).push_root(b);
            &&& p.mem_elem(b) == any
            &&& p.mem_alloc(any, cap).1 is Ok ==> m2 != NULL && p.mem_alloc(any, cap) == (
                x.with_word(m2, 0, cap).with_word(m2, 4, past_header(m2)),
                Ok::<Value, Value>(Value(m2)),
            )
        }),
{
    reveal(State::mem_alloc);
    reveal(State::apply);
    let any = s.builtin(id::ANY);
    let p = s.push_roots(seq![b, v]).push_root(b);
    let z = s.push_roots(seq![b, v, b, any]);
    assert(p.push_root(any) =~= z) by {
        assert(p.push_root(any).roots =~= z.roots);
    }
    assert(forall|u: u32| #[trigger] z.obj(u) == s.obj(u));
    assert(forall|u: u32| #[trigger] p.obj(u) == s.obj(u));
    assert(z.elem_size(any) == 4);
    let tn = s.shared_name(3);
    let cache = s.word(tn, 4);
    assert(z.word(tn, 4) == cache);
    lemma_cached_same(s, z, cache, seq![any], 0);
    assert(z.cache_lookup(tn, seq![any]) == s.tag(s.arr_mem(b)));
    assert(s.tag(s.arr_mem(b)) != NULL) by {
        crate::slots::lemma_empty_places(s, 0, 0);
        assert(s.obj(NULL) is None);
    }
    assert(z.memory_type(any) == (z, s.tag(s.arr_mem(b))));
}

/// A push that needs a larger buffer appends as well, and changes no root but the
/// table.
#[verifier::rlimit(60)]
#[verifier::spinoff_prover]
proof fn lemma_push_grow(s: State, b: u32, v: u32)
    requires
        s.table_ok(b),
        s.can_grow(b),
        s.arr_len(b) == s.mem_len(s.arr_mem(b)),
        s.good(v),
        v != NULL,
        s.arr_push(b, v).1 is Ok,
    ensures
        ({
            let e = s.arr_push(b, v).0;
            let n = s.arr_len(b);
            &&& e.table_ok(b)
            &&& e.table(b) == s.table(b).push(v)
            &&& e.mem_len(e.arr_mem(b)) == next_capacity(n as int, n + 1)
            &&& forall|r: u32|
                #![trigger s.root_list().contains(r)]
                s.root_list().contains(r) && r != b && r != NULL ==> e.data(r) == s.data(r)
                    && e.tag(r) == s.tag(r) && e.arr_mem(b) != r
        }),
{
    reveal(State::arr_push);
    reveal(State::arr_grow);
    reveal(State::arr_move);
    let n = s.arr_len(b);
    let m = s.arr_mem(b);
    let mt = s.tag(m);
    let any = s.builtin(id::ANY);
    let cap = next_capacity(n as int, n + 1) as u32;
    let p = s.push_roots(seq![b, v]);
    assert(forall|u: u32| #[trigger] p.obj(u) == s.obj(u));
    let xs = seq![b, v, b, any];
    let (g, m2) = s.push_roots(xs).alloc_object(mt, DATA + 4 * cap);
    let x = g.pop_roots(1);
    let e2 = g.pop_roots(4);
    lemma_buffer(s, b, v, cap);
    assert(p.arr_move(b, cap).1 is Ok);
    assert(m2 != NULL);
    lemma_table_reaches(s, b);
    crate::uniquing::lemma_core_tag(s, id::ANY);
    crate::uniquing::lemma_alloc_pushed(s, xs, mt, DATA + 4 * cap);
    crate::object::lemma_alloc_object_keeps(s.push_roots(xs), mt, DATA + 4 * cap);
    assert(xs[0] == b && xs.len() == 4);
    assert(forall|u: u32| #[trigger] x.obj(u) == e2.obj(u));
    lemma_moved_objects(s, e2, b, m2);
    let x1 = x.with_word(m2, 0, cap).with_word(m2, 4, past_header(m2));
    crate::health::lemma_word_only_at(x, m2, 0, cap);
    crate::health::lemma_word_only_at(x.with_word(m2, 0, cap), m2, 4, past_header(m2));
    assert(forall|u: u32| u != m2 ==> #[trigger] x1.obj(u) == x.obj(u));
    assert(x1.arr_mem(b) == m);
    assert(x1.mem_elem(m) == any && x1.elem_size(any) == 4);
    let c = copied(x, m, m2, n, cap);
    lemma_copied(x, m, m2, n, cap);
    assert(forall|u: u32| u != m2 ==> #[trigger] c.obj(u) == x.obj(u));
    assert forall|k: int| 0 <= k < n implies #[trigger] c.word(m2, DATA + 4 * k) != NULL by {
        assert(s.table(b)[k] != NULL);
        assert(x.word(m, DATA + 4 * k) == s.word(m, DATA + 4 * k));
    }
    lemma_retargeted(c, b, m2, n);
    let t = c.set_ref(b, 0, m2);
    assert(t.table(b) =~= s.table(b)) by {
        assert forall|k: int| 0 <= k < n implies t.table(b)[k] == s.table(b)[k] by {
            assert(c.word(m2, DATA + 4 * k) == x.word(m, DATA + 4 * k));
        }
    }
    lemma_retarget(c, b, m2);
    let t1 = t.pop_roots(1);
    assert(forall|u: u32| #[trigger] t1.obj(u) == t.obj(u));
    assert(p.arr_move(b, cap) == (t1, Ok::<(), Value>(())));
    assert(t1.table_ok(b)) by {
        assert(t1.table(b) =~= t.table(b));
        assert forall|k: int|
            t1.arr_len(b) <= k < t1.mem_len(t1.arr_mem(b)) implies #[trigger] t1.word(
            t1.arr_mem(b),
            DATA + 4 * k,
        ) == NULL by {
            assert(t.word(t.arr_mem(b), DATA + 4 * k) == NULL);
        }
    }
    lemma_append(t1, b, v);
    let a = t1.with_word(b, 8, (n + 1) as u32);
    lemma_set_len(t1, b, (n + 1) as u32);
    lemma_length_shape(t1, b);
    lemma_set(a, b, n, v);
    let y = appended(t1, b, v);
    let e = s.arr_push(b, v).0;
    assert(e == y.pop_roots(2));
    assert(forall|u: u32| #[trigger] e.obj(u) == y.obj(u));
    assert(e.table(b) =~= y.table(b));
    assert(e.table(b) =~= s.table(b).push(v));
    assert forall|k: int| e.arr_len(b) <= k < e.mem_len(e.arr_mem(b)) implies #[trigger] e.word(
        e.arr_mem(b),
        DATA + 4 * k,
    ) == NULL by {
        assert(y.word(y.arr_mem(b), DATA + 4 * k) == NULL);
    }
    assert forall|r: u32|
        #![trigger s.root_list().contains(r)]
        s.root_list().contains(r) && r != b && r != NULL implies e.data(r) == s.data(r) && e.tag(r)
        == s.tag(r) && e.arr_mem(b) != r by {
        crate::uniquing::lemma_root_kept(s, e2, r);
        crate::survival::lemma_reaches_self(e2, r);
        assert(r != m2);
        assert(x.obj(r) == e2.obj(r));
        assert(c.obj(r) == x.obj(r));
        assert(t.data(r) == c.data(r) && t.tag(r) == c.tag(r));
        assert(t1.obj(r) == t.obj(r));
        assert(y.data(r) == t1.data(r) && y.tag(r) == t1.tag(r));
    }
}

/// A push appends the value and changes no other element, also where the elements move
/// to a larger buffer.
pub proof fn law_push_appends(s: State, b: u32, v: u32)
    requires
        s.table_ok(b),
        s.can_grow(b),
        s.good(v),
        v != NULL,
        s.arr_push(b, v).1 is Ok,
    ensures
        s.arr_push(b, v).0.table_ok(b),
        s.arr_push(b, v).0.table(b) == s.table(b).push(v),
{
    if s.arr_len(b) < s.mem_len(s.arr_mem(b)) {
        lemma_push_room(s, b, v);
        lemma_append(s, b, v);
    } else {
        lemma_push_grow(s, b, v);
    }
}

/// A table with room keeps its shape when it becomes longer by one.
proof fn lemma_length_shape(s: State, b: u32)
    requires
        s.table_shape(b),
        s.arr_len(b) < s.mem_len(s.arr_mem(b)),
    ensures
        s.with_word(b, 8, (s.arr_len(b) + 1) as u32).table_shape(b),
        s.with_word(b, 8, (s.arr_len(b) + 1) as u32).arr_mem(b) == s.arr_mem(b),
{
    let m = s.arr_mem(b);
    let a = s.with_word(b, 8, (s.arr_len(b) + 1) as u32);
    lemma_set_len(s, b, (s.arr_len(b) + 1) as u32);
    let mt = s.tag(m);
    let any = s.builtin(id::ANY);
    assert(b != m && mt != b && any != b && s.parameters(mt) != b);
    assert(a.data(m) == s.data(m));
    assert(a.data(mt) == s.data(mt) && a.data(any) == s.data(any) && a.data(s.parameters(mt))
        == s.data(s.parameters(mt)));
}

/// The objects of a table after the allocation of a larger buffer.
proof fn lemma_moved_objects(s: State, e: State, b: u32, m2: u32)
    requires
        s.table_shape(b),
        s.can_grow(b),
        crate::uniquing::grown(s, e),
        e.good(b),
        !e.reaches(b, m2),
        forall|r: u32| #[trigger] s.root_list().contains(r) ==> !e.reaches(r, m2),
        crate::health::reach_kept(s, e, b),
        e.tag(m2) == s.tag(s.arr_mem(b)),
    ensures
        ({
            let m = s.arr_mem(b);
            &&& m2 != b && m2 != m
            &&& s.kept(e, b)
            &&& s.kept(e, m)
            &&& e.buffer_type(e.tag(m2))
            &&& m2 != e.tag(m2) && m2 != e.parameters(e.tag(m2)) && m2 != e.builtin(id::ANY)
        }),
{
    lemma_table_reaches(s, b);
    crate::slots::lemma_empty_places(e, 0, 0);
    crate::health::lemma_kept_good(s, e, b);
    let m = s.arr_mem(b);
    let mt = s.tag(m);
    let k = s.parameters(mt);
    assert(e.reaches(b, b) && e.reaches(b, m) && e.reaches(b, mt) && e.reaches(b, k));
    assert(s.kept(e, mt) && s.kept(e, k) && s.kept(e, b) && s.kept(e, m));
    let any = s.builtin(id::ANY);
    crate::health::lemma_builtin_is_root(s, id::ANY);
    crate::uniquing::lemma_root_kept(s, e, any);
    crate::survival::lemma_reaches_self(e, any);
}

// --- bindings ---------------------------------------------------------------

/// What is looked up in a table is the value next to the first such name.
proof fn lemma_lookup(s: State, b: u32, sym: u32, i: int)
    requires
        s.table_ok(b),
        0 <= i,
    ensures
        s.global_from(b, sym, s.arr_len(b), i) == (
            s,
            match bound_in(s.table(b), sym, i) {
                Some(k) => Some(Value(s.table(b)[k + 1])),
                None => None,
            },
        ),
    decreases s.arr_len(b) - i,
{
    if i + 1 < s.arr_len(b) {
        lemma_get(s, b, i as u32);
        lemma_get(s, b, (i + 1) as u32);
        lemma_lookup(s, b, sym, i + 2);
    }
}

/// The position of a name is that of the first such name.
proof fn lemma_position(s: State, b: u32, sym: u32, i: int)
    requires
        s.table_ok(b),
        0 <= i,
        i % 2 == 0,
        s.arr_len(b) % 2 == 0,
    ensures
        s.binding_from(b, sym, s.arr_len(b), i) == (
            s,
            Ok::<Option<int>, Value>(bound_in(s.table(b), sym, i)),
        ),
        bound_in(s.table(b), sym, i) matches Some(k) ==> i <= k && k % 2 == 0 && k + 1
            < s.arr_len(b) && s.table(b)[k] == sym,
    decreases s.arr_len(b) + 1 - i,
{
    if i < s.arr_len(b) {
        lemma_get(s, b, i as u32);
        lemma_position(s, b, sym, i + 2);
    }
}

/// Replacing the value of a name rebinds it, and no other name.
proof fn lemma_rebound(t: Seq<u32>, v: u32, other: u32, at: int, i: int)
    requires
        t.len() % 2 == 0,
        0 <= i,
        i % 2 == 0,
        0 <= at < t.len() - 1,
        at % 2 == 0,
    ensures
        bound_in(t.update(at + 1, v), other, i) == bound_in(t, other, i),
    decreases t.len() - i,
{
    if i + 1 < t.len() {
        assert(t.update(at + 1, v)[i] == t[i]);
        lemma_rebound(t, v, other, at, i + 2);
    }
}

/// Appending a name and its value binds it where it was not bound, and no other name.
proof fn lemma_bound_new(t: Seq<u32>, sym: u32, v: u32, other: u32, i: int)
    requires
        t.len() % 2 == 0,
        0 <= i <= t.len(),
        i % 2 == 0,
    ensures
        bound_in(t, other, i) is Some ==> bound_in(t.push(sym).push(v), other, i) == bound_in(
            t,
            other,
            i,
        ) && i <= bound_in(t, other, i)->0 < t.len() - 1,
        bound_in(t, other, i) is None && other == sym ==> bound_in(t.push(sym).push(v), other, i)
            == Some(t.len() as int),
        bound_in(t, other, i) is None && other != sym ==> bound_in(t.push(sym).push(v), other, i)
            is None,
    decreases t.len() - i,
{
    let u = t.push(sym).push(v);
    if i < t.len() {
        assert(u[i] == t[i]);
        lemma_bound_new(t, sym, v, other, i + 2);
    } else {
        assert(u[i] == sym);
        assert(bound_in(u, other, i + 2) is None);
    }
}

impl State {
    /// Whether the bindings of the module `m` can be read and written: they stand in a
    /// table that can grow, which is another object than the module, and neither it
    /// nor its buffer is read for the references of another object.
    pub open spec fn bindings_ok(self, m: u32) -> bool {
        let b = self.word(m, 8);
        &&& self.root_list().contains(m)
        &&& m != NULL
        &&& self.table_ok(b)
        &&& self.arr_len(b) % 2 == 0
        &&& self.can_grow(b)
        &&& self.unread(b)
        &&& self.unread(self.arr_mem(b))
        &&& self.tag(m) != self.tag(b)
        &&& self.tag(m) != self.tag(self.arr_mem(b))
        &&& self.tag(m) != NULL && self.tag(m) != self.builtin(id::SVEC)
        &&& self.holds_refs(self.tag(m), 3)
    }
}

/// Values on the shadow stack change nothing of what is read.
proof fn lemma_unread_rooted(s: State, e: State, p: u32)
    requires
        s.healthy(),
        e.healthy(),
        e.objs == s.objs,
        e.builtins == s.builtins,
        e.layouts == s.layouts,
        e.region == s.region,
        s.unread(p),
    ensures
        e.unread(p),
{
    assert(forall|off: u32, k: int| #[trigger] e.layout_word(off, k) == s.layout_word(off, k));
    crate::slots::lemma_empty_places(s, 0, 0);
    crate::slots::lemma_empty_places(e, 0, 0);
    assert(forall|u: u32| #[trigger] e.obj(u) == s.obj(u));
    let n = crate::access::MAX_NESTING as nat;
    assert forall|u: u32, x: u32| #[trigger]
        e.reads(u, x) && e.good(u) && e.obj(u) is Some && x != u implies x != p by {
        crate::health::lemma_same_good(e, s, u);
        lemma_reads_stay(s, e, p, p, u, x);
        assert(s.reads(u, x));
    }
    let elem = s.svec_ref(s.parameters(s.tag(p)), 0);
    crate::health::lemma_same_bits_read(s, e, elem, p, n);
}

/// Values on the shadow stack change nothing that a table needs to grow.
#[verifier::rlimit(40)]
#[verifier::spinoff_prover]
proof fn lemma_rooted_table(s: State, m: u32, xs: Seq<u32>)
    requires
        s.bindings_ok(m),
        forall|i: int| 0 <= i < xs.len() ==> s.good(#[trigger] xs[i]),
    ensures
        s.push_roots(xs).bindings_ok(m),
        s.push_roots(xs).word(m, 8) == s.word(m, 8),
        s.push_roots(xs).table(s.word(m, 8)) == s.table(s.word(m, 8)),
        forall|x: u32| #[trigger] s.good(x) ==> s.push_roots(xs).good(x),
{
    let e = s.push_roots(xs);
    let b = s.word(m, 8);
    assert(forall|u: u32| #[trigger] e.obj(u) == s.obj(u));
    assert(e.healthy() && e.good(b) && e.root_list().contains(m)) by {
        crate::uniquing::lemma_push_healthy(s, xs);
    }
    assert(forall|x: u32| #[trigger] s.good(x) ==> e.good(x)) by {
        crate::uniquing::lemma_push_healthy(s, xs);
    }
    assert(e.can_grow(b)) by {
        lemma_can_grow_stays(s, e, b);
    }
    assert(e.unread(b) && e.unread(s.arr_mem(b))) by {
        lemma_unread_rooted(s, e, b);
        lemma_unread_rooted(s, e, s.arr_mem(b));
    }
    assert(e.table(b) =~= s.table(b));
    assert(e.table_ok(b)) by {
        assert forall|k: int|
            e.arr_len(b) <= k < e.mem_len(e.arr_mem(b)) implies #[trigger] e.word(
            e.arr_mem(b),
            DATA + 4 * k,
        ) == NULL by {
            assert(s.word(s.arr_mem(b), DATA + 4 * k) == NULL);
        }
    }
    lemma_holds_same(s, e, s.tag(m), 3);
}

/// Appending a name and a value to the bindings of a module.
proof fn lemma_bind(s: State, m: u32, sym: u32, v: u32)
    requires
        s.bindings_ok(m),
        sym != NULL,
        s.good(sym),
        v != NULL,
        s.good(v),
        s.arr_push(s.word(m, 8), sym).1 is Ok,
        ({
            let a = s.arr_push(s.word(m, 8), sym).0;
            a.arr_push(a.word(m, 8), v).1 is Ok
        }),
    ensures
        ({
            let b = s.word(m, 8);
            let a = s.arr_push(b, sym).0;
            let e = a.arr_push(a.word(m, 8), v).0;
            &&& e.word(m, 8) == b
            &&& e.table_ok(b)
            &&& e.table(b) == s.table(b).push(sym).push(v)
        }),
{
    let b = s.word(m, 8);
    let n = s.arr_len(b);
    let a = s.arr_push(b, sym).0;
    let e = a.arr_push(a.word(m, 8), v).0;
    assert(m != b && m != s.arr_mem(b));
    if n < s.mem_len(s.arr_mem(b)) {
        lemma_push_room(s, b, sym);
        lemma_append(s, b, sym);
        assert(a.data(m) == s.data(m));
        assert(a.arr_len(b) == a.table(b).len());
        if n + 1 < a.mem_len(a.arr_mem(b)) {
            lemma_push_room(a, b, v);
            lemma_append(a, b, v);
            assert(e.data(m) == a.data(m));
        } else {
            lemma_append_healthy(s, b, sym);
            lemma_can_grow_stays(s, a, b);
            assert(a.root_list().contains(m));
            lemma_push_grow(a, b, v);
        }
    } else {
        lemma_push_grow(s, b, sym);
        assert(a.data(m) == s.data(m));
        assert(a.arr_len(b) == a.table(b).len());
        lemma_push_room(a, b, v);
        lemma_append(a, b, v);
        assert(e.data(m) == a.data(m));
    }
}

/// The bindings of a module after one of them was set.
#[verifier::rlimit(40)]
#[verifier::spinoff_prover]
proof fn lemma_after_set(s: State, m: u32, sym: u32, v: u32)
    requires
        s.bindings_ok(m),
        sym != NULL,
        s.good(sym),
        v != NULL,
        s.good(v),
        s.set_global(m, sym, v).1 is Ok,
    ensures
        ({
            let b = s.word(m, 8);
            let t = s.table(b);
            let e = s.set_global(m, sym, v).0;
            &&& e.word(m, 8) == b
            &&& e.table_ok(b)
            &&& e.table(b) == match bound_in(t, sym, 0) {
                Some(at) => t.update(at + 1, v),
                None => t.push(sym).push(v),
            }
            &&& bound_in(t, sym, 0) matches Some(at) ==> 0 <= at < t.len() - 1 && at % 2 == 0
                && t[at] == sym
        }),
{
    reveal(State::set_global);
    let b = s.word(m, 8);
    let s0 = s.push_roots(seq![m, v]);
    assert(s.good(m));
    lemma_rooted_table(s, m, seq![m, v]);
    lemma_position(s0, b, sym, 0);
    let t = s.table(b);
    let e = s.set_global(m, sym, v).0;
    match bound_in(t, sym, 0) {
        Some(at) => {
            let s2 = s0.arr_set(b, (at + 1) as u32, v).0;
            lemma_assign(s0, b, (at + 1) as u32, v);
            assert(m != s0.arr_mem(b));
            assert(s2.data(m) == s0.data(m));
            assert(e == s2.pop_roots(2));
            lemma_popped(s2, b);
            assert(e.obj(m) == s2.obj(m));
        },
        None => {
            lemma_bind(s0, m, sym, v);
            let s2 = s0.arr_push(b, sym).0;
            let s3 = s2.arr_push(s2.word(m, 8), v).0;
            assert(e == s3.pop_roots(2));
            lemma_popped(s3, b);
            assert(e.obj(m) == s3.obj(m));
        },
    }
}

/// A global gives back the value it was last set to, setting it changes no other
/// global, and reading one changes nothing.
pub proof fn law_get_after_set_global(s: State, m: u32, sym: u32, v: u32, other: u32)
    requires
        s.bindings_ok(m),
        sym != NULL,
        s.good(sym),
        v != NULL,
        s.good(v),
        s.set_global(m, sym, v).1 is Ok,
    ensures
        ({
            let e = s.set_global(m, sym, v).0;
            &&& e.get_global(m, sym) == (e, Some(Value(v)))
            &&& other != sym ==> e.get_global(m, other) == (e, s.get_global(m, other).1)
            &&& s.get_global(m, other).0 == s
        }),
{
    let b = s.word(m, 8);
    let t = s.table(b);
    let e = s.set_global(m, sym, v).0;
    lemma_after_set(s, m, sym, v);
    lemma_lookup(s, b, other, 0);
    lemma_lookup(e, b, sym, 0);
    lemma_lookup(e, b, other, 0);
    lemma_position(s, b, other, 0);
    match bound_in(t, sym, 0) {
        Some(at) => {
            lemma_rebound(t, v, sym, at, 0);
            lemma_rebound(t, v, other, at, 0);
        },
        None => {
            lemma_bound_new(t, sym, v, sym, 0);
            lemma_bound_new(t, sym, v, other, 0);
        },
    }
}

/// The names of a table after one was bound: they stay, and only one that was not
/// there is added.
pub open spec fn names_kept(before: Seq<u32>, after: Seq<u32>, sym: u32, bound: bool) -> bool {
    &&& bound ==> after.len() == before.len()
    &&& !bound ==> after.len() == before.len() + 2 && after[before.len() as int] == sym
    &&& forall|k: int| 0 <= k < before.len() && k % 2 == 0 ==> #[trigger] after[k] == before[k]
}

proof fn lemma_names_kept(t: Seq<u32>, sym: u32, v: u32)
    requires
        bound_in(t, sym, 0) matches Some(at) ==> 0 <= at < t.len() - 1 && at % 2 == 0,
    ensures
        names_kept(
            t,
            match bound_in(t, sym, 0) {
                Some(at) => t.update(at + 1, v),
                None => t.push(sym).push(v),
            },
            sym,
            bound_in(t, sym, 0) is Some,
        ),
{
}

proof fn lemma_is_bound(s: State, m: u32, sym: u32)
    requires
        s.table_ok(s.word(m, 8)),
    ensures
        s.get_global(m, sym).1 is Some == bound_in(s.table(s.word(m, 8)), sym, 0) is Some,
{
    lemma_lookup(s, s.word(m, 8), sym, 0);
}

/// Binding a name again adds no second binding: the names of the module's table stay,
/// each at its place, and only a name that was not bound is added, at the end.
#[verifier::rlimit(40)]
#[verifier::spinoff_prover]
pub proof fn law_rebinding_adds_no_binding(s: State, m: u32, sym: u32, v: u32)
    requires
        s.bindings_ok(m),
        sym != NULL,
        s.good(sym),
        v != NULL,
        s.good(v),
        s.set_global(m, sym, v).1 is Ok,
    ensures
        ({
            let e = s.set_global(m, sym, v).0;
            names_kept(
                s.table(s.word(m, 8)),
                e.table(e.word(m, 8)),
                sym,
                s.get_global(m, sym).1 is Some,
            )
        }),
{
    lemma_after_set(s, m, sym, v);
    lemma_names_kept(s.table(s.word(m, 8)), sym, v);
    lemma_is_bound(s, m, sym);
}

/// Releasing roots changes no table.
proof fn lemma_popped(s: State, b: u32)
    requires
        s.table_ok(b),
    ensures
        s.pop_roots(2).table_ok(b),
        s.pop_roots(2).table(b) == s.table(b),
        s.pop_roots(2).arr_len(b) == s.arr_len(b),
        forall|u: u32| #[trigger] s.pop_roots(2).obj(u) == s.obj(u),
{
    let e = s.pop_roots(2);
    assert(forall|u: u32| #[trigger] e.obj(u) == s.obj(u));
    assert(e.table(b) =~= s.table(b));
    assert forall|k: int| e.arr_len(b) <= k < e.mem_len(e.arr_mem(b)) implies #[trigger] e.word(
        e.arr_mem(b),
        DATA + 4 * k,
    ) == NULL by {
        assert(s.word(s.arr_mem(b), DATA + 4 * k) == NULL);
    }
}

/// Where what the roots reach is kept, the bindings of a module are.
proof fn lemma_bindings_kept(s: State, e: State, m: u32)
    requires
        s.bindings_ok(m),
        e.builtins == s.builtins,
        crate::health::roots_kept(s, e),
    ensures
        e.word(m, 8) == s.word(m, 8),
        e.table_ok(s.word(m, 8)),
        e.table(s.word(m, 8)) == s.table(s.word(m, 8)),
{
    let b = s.word(m, 8);
    let mem = s.arr_mem(b);
    let mt = s.tag(mem);
    let k = s.parameters(mt);
    let any = s.builtin(id::ANY);
    lemma_bindings_rooted(s, m);
    assert(s.kept(e, m) && s.kept(e, b) && s.kept(e, mem) && s.kept(e, mt) && s.kept(e, k)
        && s.kept(e, any));
    assert(e.table(b) =~= s.table(b));
    assert forall|j: int| e.arr_len(b) <= j < e.mem_len(e.arr_mem(b)) implies #[trigger] e.word(
        e.arr_mem(b),
        DATA + 4 * j,
    ) == NULL by {
        assert(s.word(mem, DATA + 4 * j) == NULL);
    }
    assert forall|j: int| 0 <= j < e.arr_len(b) implies #[trigger] e.table(b)[j] != NULL by {
        assert(s.table(b)[j] != NULL);
    }
}

/// The module, its table and what is read to find its values are reached by roots.
proof fn lemma_bindings_rooted(s: State, m: u32)
    requires
        s.bindings_ok(m),
    ensures
        s.rooted(m),
        s.rooted(s.word(m, 8)),
        s.rooted(s.arr_mem(s.word(m, 8))),
        s.rooted(s.tag(s.arr_mem(s.word(m, 8)))),
        s.rooted(s.parameters(s.tag(s.arr_mem(s.word(m, 8))))),
        s.rooted(s.builtin(id::ANY)),
{
    let b = s.word(m, 8);
    lemma_table_reaches(s, b);
    assert(s.good(m));
    assert(s.reaches(m, m)) by {
        crate::survival::lemma_reaches_self(s, m);
    }
    assert(s.reaches(m, b)) by {
        crate::uniquing::lemma_plain_refs(s, m, 3);
        assert(s.refs_of(m)[3] == s.word(m, 4 * 2int));
        crate::health::lemma_reaches_ref(s, m, b);
    }
    crate::health::lemma_reaches_trans(s, m, b, s.arr_mem(b));
    crate::health::lemma_reaches_trans(s, m, b, s.tag(s.arr_mem(b)));
    crate::health::lemma_reaches_trans(s, m, b, s.parameters(s.tag(s.arr_mem(b))));
    crate::health::lemma_builtin_is_root(s, id::ANY);
    crate::uniquing::lemma_core_tag(s, id::ANY);
    crate::survival::lemma_reaches_self(s, s.builtin(id::ANY));
}

/// Globals persist: neither a collection nor an allocation, which may collect, changes
/// what one gives.
pub proof fn law_globals_persist(s: State, full: bool, t: u32, size: int, m: u32, sym: u32)
    requires
        s.bindings_ok(m),
        s.builtins is Some,
        0 <= size,
    ensures
        ({
            let c = s.collect(full);
            c.get_global(m, sym) == (c, s.get_global(m, sym).1)
        }),
        ({
            let a = s.alloc_object(t, size).0;
            a.get_global(m, sym) == (a, s.get_global(m, sym).1)
        }),
{
    let b = s.word(m, 8);
    lemma_lookup(s, b, sym, 0);
    let c = s.collect(full);
    crate::health::lemma_collect_healthy(s, full);
    crate::survival::lemma_collect_frame(s, full);
    lemma_bindings_kept(s, c, m);
    lemma_lookup(c, b, sym, 0);
    let a = s.alloc_object(t, size).0;
    crate::health::law_alloc_keeps_rooted(s, t, size);
    crate::object::lemma_alloc_object_keeps(s, t, size);
    lemma_bindings_kept(s, a, m);
    lemma_lookup(a, b, sym, 0);
}

} // verus!
