//! Multiple dispatch.
//!
//! A generic function has methods; a method has a signature, a tuple type. A call
//! picks, among the methods whose signature is above the tuple of the argument types,
//! one whose signature is below those of all the others, or else the first.

use std::rc::Rc;
use vstd::prelude::*;
use crate::access;
use crate::id;
use crate::ir::{Body, Entry, FnKind, Native};
use crate::object::type_of;
use crate::state::{Runtime, State, Value};
use crate::structs::{define_struct, fields_view};
use crate::types::{issubtype, tuple_type};

verus! {

/// The first identifier that [`fresh_func_id`] gives.
pub const FIRST_FUNC: u32 = 0x10_0000;

/// A method's position in the table and its signature.
#[derive(Clone, Copy, PartialEq, Eq, Structural)]
pub struct Candidate {
    pub index: usize,
    pub sig: u32,
}

/// The methods of `func` among the first `n`, in order.
pub open spec fn candidates(methods: Seq<Entry>, func: u32, n: int) -> Seq<Candidate>
    decreases n,
{
    if n <= 0 || n > methods.len() {
        Seq::empty()
    } else if methods[n - 1].func == func {
        candidates(methods, func, n - 1).push(
            Candidate { index: (n - 1) as usize, sig: methods[n - 1].sig },
        )
    } else {
        candidates(methods, func, n - 1)
    }
}

/// The callable registered for the type `t` among the first `n`, the last one first.
pub open spec fn callable_from(functions: Seq<(u32, FnKind)>, t: u32, n: int) -> Option<FnKind>
    decreases n,
{
    if n <= 0 || n > functions.len() {
        None
    } else if functions[n - 1].0 == t {
        Some(functions[n - 1].1)
    } else {
        callable_from(functions, t, n - 1)
    }
}

impl State {
    /// The state without methods and callable values.
    pub open spec fn dispatch_reset(self) -> State {
        State { methods: Seq::empty(), functions: Seq::empty(), next_func: FIRST_FUNC, ..self }
    }

    /// The state with the next function identifier taken.
    pub open spec fn take_func(self) -> State {
        State {
            next_func: if self.next_func == u32::MAX {
                self.next_func
            } else {
                (self.next_func + 1) as u32
            },
            ..self
        }
    }

    /// A callable value: the sole instance of a fresh type below `Function`.
    #[verifier::opaque]
    pub open spec fn make_callable(self, name: Seq<u8>, kind: FnKind) -> (State, u32) {
        let (s, t) = self.define_struct(name, self.builtin(id::FUNCTION), Seq::empty(), false);
        (State { functions: s.functions.push((t, kind)), ..s }, s.instance_of(t))
    }

    /// What the value `v` resolves to when called.
    pub open spec fn callable_of(self, v: u32) -> Option<FnKind> {
        callable_from(self.functions, self.tag(v), self.functions.len() as int)
    }

    /// The generic function that the value `v` stands for.
    pub open spec fn func_of(self, v: u32) -> Option<u32> {
        match self.callable_of(v) {
            Some(FnKind::Generic(f)) => Some(f),
            _ => None,
        }
    }

    /// The state with a method added.
    pub open spec fn with_method(self, e: Entry) -> State {
        State { methods: self.methods.push(e), ..self }
    }

    /// Those of the first `n` candidates whose signature is above `tup`.
    pub open spec fn applicable(
        self,
        cs: Seq<Candidate>,
        tup: u32,
        n: int,
    ) -> (State, Seq<Candidate>)
        decreases n,
    {
        if n <= 0 || n > cs.len() {
            (self, Seq::empty())
        } else {
            let (s, rest) = self.applicable(cs, tup, n - 1);
            let (s1, ok) = s.subtype(tup, cs[n - 1].sig, access::MAX_NESTING as nat);
            (
                s1,
                if ok {
                    rest.push(cs[n - 1])
                } else {
                    rest
                },
            )
        }
    }

    /// Whether `sig` is below the signatures of the candidates from `j` on.
    pub open spec fn below_all(self, sig: u32, cs: Seq<Candidate>, j: int) -> (State, bool)
        decreases cs.len() - j,
    {
        if j < 0 || j >= cs.len() {
            (self, true)
        } else {
            let (s, ok) = self.subtype(sig, cs[j].sig, access::MAX_NESTING as nat);
            if ok {
                s.below_all(sig, cs, j + 1)
            } else {
                (s, false)
            }
        }
    }

    /// The first candidate from `i` on whose signature is below all, else the first.
    pub open spec fn most_specific(self, cs: Seq<Candidate>, i: int) -> (State, Option<usize>)
        decreases cs.len() - i,
    {
        if i < 0 || i >= cs.len() {
            (
                self,
                if cs.len() > 0 {
                    Some(cs[0].index)
                } else {
                    None
                },
            )
        } else {
            let (s, ok) = self.below_all(cs[i].sig, cs, 0);
            if ok {
                (s, Some(cs[i].index))
            } else {
                s.most_specific(cs, i + 1)
            }
        }
    }

    /// Whether the signature of candidate `k` is above `tup`, asked after those of the
    /// candidates before it.
    pub open spec fn fits(self, cs: Seq<Candidate>, tup: u32, k: int) -> bool {
        self.applicable(cs, tup, k).0.subtype(tup, cs[k].sig, access::MAX_NESTING as nat).1
    }

    /// The state in which candidate `i` is compared with all: after those before it.
    pub open spec fn rivals(self, cs: Seq<Candidate>, i: int) -> State
        decreases i,
    {
        if i <= 0 || i > cs.len() {
            self
        } else {
            self.rivals(cs, i - 1).below_all(cs[i - 1].sig, cs, 0).0
        }
    }

    /// Whether the signature of candidate `i` is below those of all.
    pub open spec fn leads_all(self, cs: Seq<Candidate>, i: int) -> bool {
        self.rivals(cs, i).below_all(cs[i].sig, cs, 0).1
    }

    /// Whether `r` is the first candidate that is below all, or the first one where
    /// none is.
    pub open spec fn chosen(self, cs: Seq<Candidate>, r: Option<usize>) -> bool {
        ||| exists|m: int| {
            &&& 0 <= m < cs.len()
            &&& #[trigger] self.leads_all(cs, m)
            &&& r == Some(cs[m].index)
            &&& forall|k: int| 0 <= k < m ==> !(#[trigger] self.leads_all(cs, k))
        }
        ||| r == Some(cs[0].index) && forall|k: int|
            0 <= k < cs.len() ==> !(#[trigger] self.leads_all(cs, k))
    }

    /// The method of `func` for the given argument types.
    #[verifier::opaque]
    pub open spec fn select(self, func: u32, arg_types: Seq<u32>) -> (State, Option<usize>) {
        let (s1, tup) = self.tuple_type(arg_types);
        let cs = candidates(s1.methods, func, s1.methods.len() as int);
        let (s2, app) = s1.applicable(cs, tup, cs.len() as int);
        s2.most_specific(app, 0)
    }
}

/// A fresh identifier of a generic function.
pub fn fresh_func_id(rt: &mut Runtime) -> (r: u32)
    ensures
        r == old(rt)@.next_func,
        final(rt)@ == old(rt)@.take_func(),
{
    let f: u32 = rt.next_func;
    if f < u32::MAX {
        rt.next_func = f + 1;
    }
    f
}

/// Forgets all methods and callable values.
pub fn reset(rt: &mut Runtime)
    ensures
        final(rt)@ == old(rt)@.dispatch_reset(),
{
    rt.methods.clear();
    rt.functions.clear();
    rt.next_func = FIRST_FUNC;
}

/// Makes a callable value.
fn make_callable(rt: &mut Runtime, name: &Vec<u8>, kind: FnKind) -> (r: Value)
    ensures
        (final(rt)@, r.0) == old(rt)@.make_callable(name@, kind),
{
    proof {
        reveal(State::make_callable);
    }
    let super_: u32 = access::builtin(rt, id::FUNCTION);
    let none: Vec<(Vec<u8>, u32)> = Vec::new();
    assert(fields_view(none@) =~= Seq::<(Seq<u8>, u32)>::empty());
    let t: u32 = define_struct(rt, name, super_, &none, false);
    rt.functions.push((t, kind));
    Value(access::instance_of(rt, t))
}

/// Makes the callable value of the generic function `func`.
pub fn make_function(rt: &mut Runtime, name: &Vec<u8>, func: u32) -> (r: Value)
    ensures
        (final(rt)@, r.0) == old(rt)@.make_callable(name@, FnKind::Generic(func)),
{
    make_callable(rt, name, FnKind::Generic(func))
}

/// Makes the callable value of a native function.
pub fn make_native_function(rt: &mut Runtime, name: &Vec<u8>, f: Native) -> (r: Value)
    ensures
        (final(rt)@, r.0) == old(rt)@.make_callable(name@, FnKind::Native(f)),
{
    make_callable(rt, name, FnKind::Native(f))
}

/// What the value `v` resolves to when called.
pub fn callable_of(rt: &Runtime, v: Value) -> (r: Option<FnKind>)
    ensures
        r == rt@.callable_of(v.0),
{
    let t: u32 = type_of(rt, v);
    let mut n: usize = rt.functions.len();
    while n > 0
        invariant
            n <= rt.functions.len(),
            rt@.callable_of(v.0) == callable_from(rt@.functions, t, n as int),
        decreases n,
    {
        n = n - 1;
        if rt.functions[n].0 == t {
            return Some(rt.functions[n].1);
        }
    }
    None
}

/// The generic function that the value `v` stands for.
pub fn func_of(rt: &Runtime, v: Value) -> (r: Option<u32>)
    ensures
        r == rt@.func_of(v.0),
{
    match callable_of(rt, v) {
        Some(FnKind::Generic(f)) => Some(f),
        _ => None,
    }
}

/// Adds a method with an interpretable body.
pub fn add_method(rt: &mut Runtime, func: u32, sig: u32, body: Rc<Body>)
    ensures
        final(rt)@ == old(rt)@.with_method(
            (Entry { func, sig, body: Some(body), fptr1: None }),
        ),
{
    rt.methods.push(Entry { func, sig, body: Some(body), fptr1: None });
}

/// Adds a method with a compiled entry point.
pub fn add_compiled_method(rt: &mut Runtime, func: u32, sig: u32, fptr1: u32)
    ensures
        final(rt)@ == old(rt)@.with_method(
            (Entry { func, sig, body: None, fptr1: Some(fptr1) }),
        ),
{
    rt.methods.push(Entry { func, sig, body: None, fptr1: Some(fptr1) });
}

/// The methods of `func`.
fn list_candidates(rt: &Runtime, func: u32) -> (r: Vec<Candidate>)
    ensures
        r@ == candidates(rt@.methods, func, rt@.methods.len() as int),
{
    let mut r: Vec<Candidate> = Vec::new();
    let mut i: usize = 0;
    assert(r@ =~= candidates(rt@.methods, func, 0));
    while i < rt.methods.len()
        invariant
            i <= rt.methods.len(),
            r@ == candidates(rt@.methods, func, i as int),
        decreases rt.methods.len() - i,
    {
        if rt.methods[i].func == func {
            r.push(Candidate { index: i, sig: rt.methods[i].sig });
        }
        i = i + 1;
    }
    r
}

/// The candidates whose signature is above `tup`.
fn list_applicable(rt: &mut Runtime, cs: &Vec<Candidate>, tup: u32) -> (r: Vec<Candidate>)
    ensures
        (final(rt)@, r@) == old(rt)@.applicable(cs@, tup, cs.len() as int),
{
    let mut r: Vec<Candidate> = Vec::new();
    let mut i: usize = 0;
    assert(r@ =~= Seq::<Candidate>::empty());
    while i < cs.len()
        invariant
            i <= cs.len(),
            (rt@, r@) == old(rt)@.applicable(cs@, tup, i as int),
        decreases cs.len() - i,
    {
        if issubtype(rt, tup, cs[i].sig) {
            r.push(cs[i]);
        }
        i = i + 1;
    }
    r
}

/// Whether `sig` is below the signatures of all candidates.
fn below_all(rt: &mut Runtime, sig: u32, cs: &Vec<Candidate>) -> (r: bool)
    ensures
        (final(rt)@, r) == old(rt)@.below_all(sig, cs@, 0),
{
    let mut j: usize = 0;
    while j < cs.len()
        invariant
            j <= cs.len(),
            old(rt)@.below_all(sig, cs@, 0) == rt@.below_all(sig, cs@, j as int),
        decreases cs.len() - j,
    {
        if !issubtype(rt, sig, cs[j].sig) {
            return false;
        }
        j = j + 1;
    }
    true
}

/// The method of `func` for the given argument types.
pub(crate) fn select(rt: &mut Runtime, func: u32, arg_types: &Vec<u32>) -> (r: Option<usize>)
    ensures
        (final(rt)@, r) == old(rt)@.select(func, arg_types@),
{
    proof {
        reveal(State::select);
    }
    let tup: u32 = tuple_type(rt, arg_types);
    let cs: Vec<Candidate> = list_candidates(rt, func);
    let app: Vec<Candidate> = list_applicable(rt, &cs, tup);
    let ghost s2 = rt@;
    let mut i: usize = 0;
    while i < app.len()
        invariant
            i <= app.len(),
            s2.most_specific(app@, 0) == rt@.most_specific(app@, i as int),
            old(rt)@.select(func, arg_types@) == s2.most_specific(app@, 0),
        decreases app.len() - i,
    {
        if below_all(rt, app[i].sig, &app) {
            return Some(app[i].index);
        }
        i = i + 1;
    }
    if app.len() > 0 {
        Some(app[0].index)
    } else {
        None
    }
}

/// The signatures of all methods.
pub fn each_sig(rt: &Runtime) -> (r: Vec<u32>)
    ensures
        r@ == rt@.methods.map_values(|e: Entry| e.sig),
{
    let mut r: Vec<u32> = Vec::new();
    let mut i: usize = 0;
    while i < rt.methods.len()
        invariant
            i <= rt.methods.len(),
            r.len() == i,
            forall|k: int| 0 <= k < i ==> r@[k] == rt@.methods[k].sig,
        decreases rt.methods.len() - i,
    {
        r.push(rt.methods[i].sig);
        i = i + 1;
    }
    assert(r@ =~= rt@.methods.map_values(|e: Entry| e.sig));
    r
}

/// The types of all callable values.
pub fn each_function(rt: &Runtime) -> (r: Vec<u32>)
    ensures
        r@ == rt@.functions.map_values(|f: (u32, FnKind)| f.0),
{
    let mut r: Vec<u32> = Vec::new();
    let mut i: usize = 0;
    while i < rt.functions.len()
        invariant
            i <= rt.functions.len(),
            r.len() == i,
            forall|k: int| 0 <= k < i ==> r@[k] == rt@.functions[k].0,
        decreases rt.functions.len() - i,
    {
        r.push(rt.functions[i].0);
        i = i + 1;
    }
    assert(r@ =~= rt@.functions.map_values(|f: (u32, FnKind)| f.0));
    r
}

/// Every candidate is a method of its function.
proof fn lemma_candidates(methods: Seq<Entry>, func: u32, n: int, k: int)
    requires
        0 <= n <= methods.len() <= usize::MAX,
        0 <= k < candidates(methods, func, n).len(),
    ensures
        ({
            let c = candidates(methods, func, n)[k];
            c.index < n && methods[c.index as int].func == func && methods[c.index as int].sig
                == c.sig
        }),
    decreases n,
{
    if n > 0 {
        if k < candidates(methods, func, n - 1).len() {
            lemma_candidates(methods, func, n - 1, k);
        }
    }
}

/// Applicable candidates are candidates.
proof fn lemma_applicable(s: State, cs: Seq<Candidate>, tup: u32, n: int, k: int)
    requires
        0 <= n <= cs.len(),
        0 <= k < s.applicable(cs, tup, n).1.len(),
    ensures
        exists|m: int| 0 <= m < n && cs[m] == s.applicable(cs, tup, n).1[k],
    decreases n,
{
    if n > 0 {
        let rest = s.applicable(cs, tup, n - 1).1;
        if k < rest.len() {
            lemma_applicable(s, cs, tup, n - 1, k);
            let m = choose|m: int| 0 <= m < n - 1 && cs[m] == rest[k];
            assert(cs[m] == s.applicable(cs, tup, n).1[k]);
        } else {
            assert(cs[n - 1] == s.applicable(cs, tup, n).1[k]);
        }
    }
}

/// The choice among applicable candidates is one of them; there is one unless there
/// is none.
proof fn lemma_most_specific(s: State, cs: Seq<Candidate>, i: int)
    requires
        0 <= i <= cs.len(),
    ensures
        match s.most_specific(cs, i).1 {
            Some(x) => exists|m: int| 0 <= m < cs.len() && #[trigger] cs[m].index == x,
            None => cs.len() == 0,
        },
    decreases cs.len() - i,
{
    if i < cs.len() {
        let (s1, ok) = s.below_all(cs[i].sig, cs, 0);
        if ok {
            assert(cs[i].index == s.most_specific(cs, i).1->Some_0);
        } else {
            lemma_most_specific(s1, cs, i + 1);
        }
    } else if cs.len() > 0 {
        assert(cs[0].index == s.most_specific(cs, i).1->Some_0);
    }
}

/// Dispatch never picks a method of another function: the method that is selected is
/// one of the methods of the function called.
pub proof fn law_select_is_a_method(s: State, func: u32, arg_types: Seq<u32>)
    requires
        s.tuple_type(arg_types).0.methods.len() <= usize::MAX,
    ensures
        match s.select(func, arg_types).1 {
            Some(i) => {
                let methods = s.tuple_type(arg_types).0.methods;
                i < methods.len() && methods[i as int].func == func
            },
            None => true,
        },
{
    reveal(State::select);
    let (s1, tup) = s.tuple_type(arg_types);
    let n = s1.methods.len() as int;
    let cs = candidates(s1.methods, func, n);
    let (s2, app) = s1.applicable(cs, tup, cs.len() as int);
    lemma_most_specific(s2, app, 0);
    match s.select(func, arg_types).1 {
        Some(x) => {
            let m = choose|m: int| 0 <= m < app.len() && #[trigger] app[m].index == x;
            lemma_applicable(s1, cs, tup, cs.len() as int, m);
            let k = choose|k: int| 0 <= k < cs.len() && cs[k] == app[m];
            lemma_candidates(s1.methods, func, n, k);
        },
        None => {},
    }
}

/// The applicable candidates are those whose signature is above the tuple, in the
/// state in which it is asked.
proof fn lemma_applicable_fits(s: State, cs: Seq<Candidate>, tup: u32, n: int, k: int)
    requires
        0 <= k < n <= cs.len(),
    ensures
        s.fits(cs, tup, k) ==> s.applicable(cs, tup, n).1.contains(cs[k]),
    decreases n,
{
    let rest = s.applicable(cs, tup, n - 1).1;
    let all = s.applicable(cs, tup, n).1;
    if k < n - 1 {
        lemma_applicable_fits(s, cs, tup, n - 1, k);
        if s.fits(cs, tup, k) {
            let m = choose|m: int| 0 <= m < rest.len() && rest[m] == cs[k];
            assert(all[m] == cs[k]);
        }
    } else if s.fits(cs, tup, k) {
        assert(all[rest.len() as int] == cs[k]);
    }
}

/// An applicable candidate is one whose signature is above the tuple.
proof fn lemma_fitting(s: State, cs: Seq<Candidate>, tup: u32, n: int, m: int)
    requires
        0 <= n <= cs.len(),
        0 <= m < s.applicable(cs, tup, n).1.len(),
    ensures
        exists|k: int|
            0 <= k < n && #[trigger] s.fits(cs, tup, k) && cs[k] == s.applicable(cs, tup, n).1[m],
    decreases n,
{
    if n > 0 {
        let rest = s.applicable(cs, tup, n - 1).1;
        let all = s.applicable(cs, tup, n).1;
        if m < rest.len() {
            lemma_fitting(s, cs, tup, n - 1, m);
            let k = choose|k: int|
                0 <= k < n - 1 && #[trigger] s.fits(cs, tup, k) && cs[k] == rest[m];
            assert(s.fits(cs, tup, k) && cs[k] == all[m]);
        } else {
            assert(s.fits(cs, tup, n - 1) && cs[n - 1] == all[m]);
        }
    }
}

/// The choice from the candidate `i` on, when none before it was below all.
proof fn lemma_most_specific_below(s: State, cs: Seq<Candidate>, i: int)
    requires
        0 <= i <= cs.len(),
        cs.len() > 0,
        forall|k: int| 0 <= k < i ==> !(#[trigger] s.leads_all(cs, k)),
    ensures
        s.chosen(cs, s.rivals(cs, i).most_specific(cs, i).1),
    decreases cs.len() - i,
{
    let t = s.rivals(cs, i);
    let r = t.most_specific(cs, i).1;
    if i < cs.len() {
        let (s1, ok) = t.below_all(cs[i].sig, cs, 0);
        if ok {
            assert(s.leads_all(cs, i));
            assert(r == Some(cs[i].index));
        } else {
            assert(!s.leads_all(cs, i));
            assert(s1 == s.rivals(cs, i + 1));
            lemma_most_specific_below(s, cs, i + 1);
        }
    } else {
        assert(r == Some(cs[0].index));
    }
}

/// The applicable methods are those whose signature is above the tuple of the argument
/// types. One is selected exactly where there is one: the first whose signature is
/// below those of all applicable ones, and the first of all where none is.
pub proof fn law_selected_method_fits(s: State, func: u32, arg_types: Seq<u32>)
    ensures
        ({
            let (s1, tup) = s.tuple_type(arg_types);
            let cs = candidates(s1.methods, func, s1.methods.len() as int);
            let (s2, app) = s1.applicable(cs, tup, cs.len() as int);
            &&& forall|k: int|
                0 <= k < cs.len() && #[trigger] s1.fits(cs, tup, k) ==> app.contains(cs[k])
            &&& forall|m: int|
                0 <= m < app.len() ==> exists|k: int|
                    0 <= k < cs.len() && #[trigger] s1.fits(cs, tup, k) && cs[k]
                        == #[trigger] app[m]
            &&& match s.select(func, arg_types).1 {
                None => app.len() == 0,
                Some(x) => app.len() > 0 && s2.chosen(app, Some(x)),
            }
        }),
{
    reveal(State::select);
    let (s1, tup) = s.tuple_type(arg_types);
    let cs = candidates(s1.methods, func, s1.methods.len() as int);
    let n = cs.len() as int;
    let (s2, app) = s1.applicable(cs, tup, n);
    lemma_most_specific(s2, app, 0);
    assert forall|k: int| 0 <= k < n && #[trigger] s1.fits(cs, tup, k) implies app.contains(
        cs[k],
    ) by {
        lemma_applicable_fits(s1, cs, tup, n, k);
    }
    assert forall|m: int| 0 <= m < app.len() implies exists|k: int|
        0 <= k < cs.len() && #[trigger] s1.fits(cs, tup, k) && cs[k] == #[trigger] app[m] by {
        lemma_fitting(s1, cs, tup, n, m);
    }
    if app.len() > 0 {
        lemma_most_specific_below(s2, app, 0);
    }
}

/// A function with one method for which the arguments fit runs that method.
pub proof fn law_sole_applicable_method(s: State, func: u32, arg_types: Seq<u32>, c: Candidate)
    requires
        ({
            let (s1, tup) = s.tuple_type(arg_types);
            &&& candidates(s1.methods, func, s1.methods.len() as int) == seq![c]
            &&& s1.subtype(tup, c.sig, access::MAX_NESTING as nat).1
        }),
    ensures
        s.select(func, arg_types).1 == Some(c.index),
{
    reveal(State::select);
    let (s1, tup) = s.tuple_type(arg_types);
    let cs = seq![c];
    let (s2, ok) = s1.subtype(tup, c.sig, access::MAX_NESTING as nat);
    assert(s1.applicable(cs, tup, 0) == (s1, Seq::<Candidate>::empty()));
    assert(s1.applicable(cs, tup, 1) == (s2, Seq::<Candidate>::empty().push(c)));
    assert(Seq::<Candidate>::empty().push(c) =~= cs);
    crate::subtype::law_subtype_reflexive(s2, c.sig);
    assert(s2.below_all(c.sig, cs, 1) == (s2, true));
    assert(s2.below_all(c.sig, cs, 0) == (s2, true));
    assert(s2.most_specific(cs, 0) == (s2, Some(c.index)));
}

/// Whether method `i` of the table is one of `func` whose signature is above `tup`.
pub open spec fn applies(s: State, func: u32, tup: u32, i: int) -> bool {
    &&& 0 <= i < s.methods.len()
    &&& s.methods[i].func == func
    &&& s.subtype(tup, s.methods[i].sig, access::MAX_NESTING as nat).1
}

/// Whether the signature of method `i` is a subtype of that of method `j`.
pub open spec fn narrower(s: State, i: int, j: int) -> bool {
    s.subtype(s.methods[i].sig, s.methods[j].sig, access::MAX_NESTING as nat).1
}

/// Whether the signature of the applicable method `i` is a subtype of the signature of
/// every applicable method.
pub open spec fn narrowest(s: State, func: u32, tup: u32, i: int) -> bool {
    &&& applies(s, func, tup, i)
    &&& forall|j: int| #[trigger] applies(s, func, tup, j) ==> narrower(s, i, j)
}

/// Whether the queries of a call leave no trace.
pub open spec fn traceless(s: State, func: u32, tup: u32) -> bool {
    let n = access::MAX_NESTING as nat;
    &&& forall|i: int|
        #![trigger s.methods[i]]
        0 <= i < s.methods.len() && s.methods[i].func == func ==> s.subtype(
            tup,
            s.methods[i].sig,
            n,
        ).0 == s
    &&& forall|i: int, j: int|
        #![trigger s.methods[i], s.methods[j]]
        0 <= i < s.methods.len() && 0 <= j < s.methods.len() && s.methods[i].func == func
            && s.methods[j].func == func ==> s.subtype(s.methods[i].sig, s.methods[j].sig, n).0
            == s
}

/// The candidates stand in the order of the table.
proof fn lemma_candidates_rise(methods: Seq<Entry>, func: u32, n: int, a: int, b: int)
    requires
        0 <= n <= methods.len() <= usize::MAX,
        0 <= a < b < candidates(methods, func, n).len(),
    ensures
        candidates(methods, func, n)[a].index < candidates(methods, func, n)[b].index,
    decreases n,
{
    if n > 0 {
        let rest = candidates(methods, func, n - 1);
        if b < rest.len() {
            lemma_candidates_rise(methods, func, n - 1, a, b);
        } else {
            lemma_candidates(methods, func, n - 1, a);
        }
    }
}

/// Every method of the function is a candidate.
proof fn lemma_all_candidates(methods: Seq<Entry>, func: u32, n: int, i: int) -> (k: int)
    requires
        0 <= i < n <= methods.len() <= usize::MAX,
        methods[i].func == func,
    ensures
        0 <= k < candidates(methods, func, n).len(),
        candidates(methods, func, n)[k] == (Candidate { index: i as usize, sig: methods[i].sig }),
    decreases n,
{
    if i == n - 1 {
        candidates(methods, func, n).len() - 1
    } else {
        lemma_all_candidates(methods, func, n - 1, i)
    }
}

/// Whether `c` is one of the first `n` candidates, with its signature above `tup`.
spec fn listed(s: State, cs: Seq<Candidate>, tup: u32, n: int, c: Candidate) -> bool {
    exists|k: int| {
        &&& 0 <= k < n
        &&& #[trigger] cs[k] == c
        &&& s.subtype(tup, c.sig, access::MAX_NESTING as nat).1
    }
}

/// Queries that leave no trace select the applicable candidates in one state.
proof fn lemma_applicable_quiet(s: State, cs: Seq<Candidate>, tup: u32, n: int)
    requires
        0 <= n <= cs.len(),
        forall|k: int|
            0 <= k < cs.len() ==> s.subtype(
                tup,
                (#[trigger] cs[k]).sig,
                access::MAX_NESTING as nat,
            ).0 == s,
        forall|a: int, b: int| 0 <= a < b < cs.len() ==> (#[trigger] cs[a]).index < (
        #[trigger] cs[b]).index,
    ensures
        s.applicable(cs, tup, n).0 == s,
        ({
            let app = s.applicable(cs, tup, n).1;
            &&& forall|a: int, b: int| 0 <= a < b < app.len() ==> (#[trigger] app[a]).index < (
            #[trigger] app[b]).index
            &&& forall|a: int| 0 <= a < app.len() ==> listed(s, cs, tup, n, #[trigger] app[a])
            &&& forall|k: int|
                0 <= k < n && s.subtype(
                    tup,
                    (#[trigger] cs[k]).sig,
                    access::MAX_NESTING as nat,
                ).1 ==> app.contains(cs[k])
        }),
    decreases n,
{
    if n > 0 {
        lemma_applicable_quiet(s, cs, tup, n - 1);
        let rest = s.applicable(cs, tup, n - 1).1;
        let app = s.applicable(cs, tup, n).1;
        let c = cs[n - 1];
        assert forall|a: int| 0 <= a < app.len() implies listed(
            s,
            cs,
            tup,
            n,
            #[trigger] app[a],
        ) by {
            if a < rest.len() {
                assert(listed(s, cs, tup, n - 1, rest[a]));
            } else {
                assert(cs[n - 1] == app[a]);
            }
        }
        assert forall|a: int, b: int| 0 <= a < b < app.len() implies (#[trigger] app[a]).index < (
        #[trigger] app[b]).index by {
            if b == rest.len() {
                assert(listed(s, cs, tup, n - 1, rest[a]));
                let k = choose|k: int| 0 <= k < n - 1 && #[trigger] cs[k] == rest[a];
                assert(cs[k].index < cs[n - 1].index);
            }
        }
        assert forall|k: int| 0 <= k < n && s.subtype(
            tup,
            (#[trigger] cs[k]).sig,
            access::MAX_NESTING as nat,
        ).1 implies app.contains(cs[k]) by {
            if k < n - 1 {
                let a = choose|a: int| 0 <= a < rest.len() && rest[a] == cs[k];
                assert(app[a] == cs[k]);
            } else {
                assert(app[rest.len() as int] == c);
            }
        }
    }
}

/// Comparing with all, by queries that leave no trace.
proof fn lemma_below_all_quiet(s: State, sig: u32, cs: Seq<Candidate>, j: int)
    requires
        0 <= j <= cs.len(),
        forall|k: int|
            0 <= k < cs.len() ==> s.subtype(
                sig,
                (#[trigger] cs[k]).sig,
                access::MAX_NESTING as nat,
            ).0 == s,
    ensures
        s.below_all(sig, cs, j).0 == s,
        s.below_all(sig, cs, j).1 == (forall|k: int|
            j <= k < cs.len() ==> s.subtype(
                sig,
                (#[trigger] cs[k]).sig,
                access::MAX_NESTING as nat,
            ).1),
    decreases cs.len() - j,
{
    if j < cs.len() {
        lemma_below_all_quiet(s, sig, cs, j + 1);
        assert(cs[j].sig == cs[j].sig);
    }
}

/// The first candidate from `i` on that is below all.
proof fn lemma_first_below(s: State, cs: Seq<Candidate>, i: int)
    requires
        0 <= i <= cs.len(),
        forall|a: int, k: int|
            0 <= a < cs.len() && 0 <= k < cs.len() ==> s.subtype(
                (#[trigger] cs[a]).sig,
                (#[trigger] cs[k]).sig,
                access::MAX_NESTING as nat,
            ).0 == s,
    ensures
        ({
            let r = s.most_specific(cs, i).1;
            let least = |a: int|
                forall|k: int|
                    0 <= k < cs.len() ==> s.subtype(
                        cs[a].sig,
                        (#[trigger] cs[k]).sig,
                        access::MAX_NESTING as nat,
                    ).1;
            ||| exists|a: int| {
                &&& i <= a < cs.len()
                &&& #[trigger] least(a)
                &&& r == Some(cs[a].index)
                &&& forall|c: int| i <= c < a ==> !(#[trigger] least(c))
            }
            ||| {
                &&& forall|c: int| i <= c < cs.len() ==> !(#[trigger] least(c))
                &&& r == if cs.len() > 0 {
                    Some(cs[0].index)
                } else {
                    None
                }
            }
        }),
    decreases cs.len() - i,
{
    if i < cs.len() {
        lemma_below_all_quiet(s, cs[i].sig, cs, 0);
        let least = |a: int|
            forall|k: int|
                0 <= k < cs.len() ==> s.subtype(
                    cs[a].sig,
                    (#[trigger] cs[k]).sig,
                    access::MAX_NESTING as nat,
                ).1;
        if s.below_all(cs[i].sig, cs, 0).1 {
            assert(least(i));
        } else {
            assert(!least(i));
            lemma_first_below(s, cs, i + 1);
        }
    }
}

/// A selection by queries that leave no trace changes nothing once the tuple is made.
pub proof fn lemma_traceless_selection(s: State, func: u32, arg_types: Seq<u32>)
    requires
        ({
            let (s1, tup) = s.tuple_type(arg_types);
            traceless(s1, func, tup) && s1.methods.len() <= usize::MAX
        }),
    ensures
        s.select(func, arg_types).0 == s.tuple_type(arg_types).0,
{
    reveal(State::select);
    let d = access::MAX_NESTING as nat;
    let (s1, tup) = s.tuple_type(arg_types);
    let n = s1.methods.len() as int;
    let cs = candidates(s1.methods, func, n);
    assert forall|a: int, b: int| 0 <= a < b < cs.len() implies (#[trigger] cs[a]).index < (
    #[trigger] cs[b]).index by {
        lemma_candidates_rise(s1.methods, func, n, a, b);
    }
    assert forall|k: int| 0 <= k < cs.len() implies s1.subtype(tup, (#[trigger] cs[k]).sig, d).0
        == s1 by {
        lemma_candidates(s1.methods, func, n, k);
        assert(s1.methods[cs[k].index as int].func == func);
    }
    lemma_applicable_quiet(s1, cs, tup, cs.len() as int);
    let app = s1.applicable(cs, tup, cs.len() as int).1;
    assert forall|a: int, k: int| 0 <= a < app.len() && 0 <= k < app.len() implies s1.subtype(
        (#[trigger] app[a]).sig,
        (#[trigger] app[k]).sig,
        d,
    ).0 == s1 by {
        lemma_applicable(s1, cs, tup, cs.len() as int, a);
        lemma_applicable(s1, cs, tup, cs.len() as int, k);
        let i = choose|i: int| 0 <= i < cs.len() && cs[i] == app[a];
        let j = choose|j: int| 0 <= j < cs.len() && cs[j] == app[k];
        lemma_candidates(s1.methods, func, n, i);
        lemma_candidates(s1.methods, func, n, j);
        assert(s1.methods[cs[i].index as int].sig == app[a].sig);
        assert(s1.methods[cs[j].index as int].sig == app[k].sig);
    }
    lemma_quiet_choice(s1, app, 0);
}

/// A choice by queries that leave no trace leaves none.
proof fn lemma_quiet_choice(s: State, cs: Seq<Candidate>, i: int)
    requires
        0 <= i <= cs.len(),
        forall|a: int, k: int|
            0 <= a < cs.len() && 0 <= k < cs.len() ==> s.subtype(
                (#[trigger] cs[a]).sig,
                (#[trigger] cs[k]).sig,
                access::MAX_NESTING as nat,
            ).0 == s,
    ensures
        s.most_specific(cs, i).0 == s,
    decreases cs.len() - i,
{
    if i < cs.len() {
        lemma_below_all_quiet(s, cs[i].sig, cs, 0);
        lemma_quiet_choice(s, cs, i + 1);
    }
}

/// The most specific applicable method is selected. The applicable methods of a call are
/// those of its function whose signatures are above the tuple of the argument types. If
/// the signature of one of them is a subtype of the signatures of all of them, the method
/// selected is the first such; if there is none such, it is the first applicable one; and
/// where no method is applicable none is selected. The queries are taken to leave no
/// trace.
#[verifier::rlimit(60)]
pub proof fn law_most_specific_is_selected(s: State, func: u32, arg_types: Seq<u32>)
    requires
        ({
            let (s1, tup) = s.tuple_type(arg_types);
            traceless(s1, func, tup) && s1.methods.len() <= usize::MAX
        }),
    ensures
        ({
            let (s1, tup) = s.tuple_type(arg_types);
            match s.select(func, arg_types).1 {
                None => forall|i: int| !(#[trigger] applies(s1, func, tup, i)),
                Some(x) => {
                    &&& applies(s1, func, tup, x as int)
                    &&& (exists|m: int| #[trigger] narrowest(s1, func, tup, m)) ==> {
                        &&& narrowest(s1, func, tup, x as int)
                        &&& forall|m: int| #[trigger] narrowest(s1, func, tup, m) ==> x <= m
                    }
                    &&& !(exists|m: int| #[trigger] narrowest(s1, func, tup, m)) ==> forall|i: int|
                        #[trigger] applies(s1, func, tup, i) ==> x <= i
                },
            }
        }),
{
    reveal(State::select);
    let d = access::MAX_NESTING as nat;
    let (s1, tup) = s.tuple_type(arg_types);
    let n = s1.methods.len() as int;
    let cs = candidates(s1.methods, func, n);
    assert forall|a: int, b: int| 0 <= a < b < cs.len() implies (#[trigger] cs[a]).index < (
    #[trigger] cs[b]).index by {
        lemma_candidates_rise(s1.methods, func, n, a, b);
    }
    assert forall|k: int| 0 <= k < cs.len() implies s1.subtype(tup, (#[trigger] cs[k]).sig, d).0
        == s1 by {
        lemma_candidates(s1.methods, func, n, k);
        assert(s1.methods[cs[k].index as int].func == func);
    }
    lemma_applicable_quiet(s1, cs, tup, cs.len() as int);
    let app = s1.applicable(cs, tup, cs.len() as int).1;
    assert forall|a: int| 0 <= a < app.len() implies {
        let i = (#[trigger] app[a]).index as int;
        applies(s1, func, tup, i) && s1.methods[i].sig == app[a].sig
    } by {
        assert(listed(s1, cs, tup, cs.len() as int, app[a]));
        let k = choose|k: int| {
            &&& 0 <= k < cs.len()
            &&& #[trigger] cs[k] == app[a]
            &&& s1.subtype(tup, app[a].sig, access::MAX_NESTING as nat).1
        };
        lemma_candidates(s1.methods, func, n, k);
    }
    assert forall|i: int| #[trigger] applies(s1, func, tup, i) implies exists|a: int|
        0 <= a < app.len() && (#[trigger] app[a]).index == i by {
        let k = lemma_all_candidates(s1.methods, func, n, i);
        assert(app.contains(cs[k]));
        let a = choose|a: int| 0 <= a < app.len() && app[a] == cs[k];
        assert(app[a].index == i);
    }
    assert forall|a: int, k: int| 0 <= a < app.len() && 0 <= k < app.len() implies s1.subtype(
        (#[trigger] app[a]).sig,
        (#[trigger] app[k]).sig,
        d,
    ).0 == s1 by {
        assert(applies(s1, func, tup, app[a].index as int));
        assert(applies(s1, func, tup, app[k].index as int));
        assert(s1.methods[app[a].index as int].sig == app[a].sig);
        assert(s1.methods[app[k].index as int].sig == app[k].sig);
    }
    lemma_first_below(s1, app, 0);
    let least = |a: int|
        forall|k: int| 0 <= k < app.len() ==> s1.subtype(app[a].sig, (#[trigger] app[k]).sig, d).1;
    assert forall|a: int| 0 <= a < app.len() implies #[trigger] least(a) == narrowest(
        s1,
        func,
        tup,
        app[a].index as int,
    ) by {
        let i = app[a].index as int;
        if least(a) {
            assert forall|j: int| #[trigger] applies(s1, func, tup, j) implies narrower(
                s1,
                i,
                j,
            ) by {
                let k = choose|k: int| 0 <= k < app.len() && (#[trigger] app[k]).index == j;
                assert(s1.subtype(app[a].sig, app[k].sig, d).1);
            }
        }
        if narrowest(s1, func, tup, i) {
            assert forall|k: int| 0 <= k < app.len() implies s1.subtype(
                app[a].sig,
                (#[trigger] app[k]).sig,
                d,
            ).1 by {
                assert(applies(s1, func, tup, app[k].index as int));
                assert(narrower(s1, i, app[k].index as int));
            }
        }
    }
    let r = s1.most_specific(app, 0).1;
    if exists|m: int| #[trigger] narrowest(s1, func, tup, m) {
        let m = choose|m: int| #[trigger] narrowest(s1, func, tup, m);
        assert(applies(s1, func, tup, m));
        let b = choose|b: int| 0 <= b < app.len() && (#[trigger] app[b]).index == m;
        assert(least(b));
        let a = choose|a: int| {
            &&& 0 <= a < app.len()
            &&& #[trigger] least(a)
            &&& r == Some(app[a].index)
            &&& forall|c: int| 0 <= c < a ==> !(#[trigger] least(c))
        };
        assert forall|m2: int| #[trigger] narrowest(s1, func, tup, m2) implies app[a].index
            <= m2 by {
            assert(applies(s1, func, tup, m2));
            let b2 = choose|b2: int| 0 <= b2 < app.len() && (#[trigger] app[b2]).index == m2;
            assert(least(b2));
            if b2 > a {
                assert(app[a].index < app[b2].index);
            }
        }
    } else {
        assert forall|c: int| 0 <= c < app.len() implies !(#[trigger] least(c)) by {
            assert(!narrowest(s1, func, tup, app[c].index as int));
        }
        assert forall|i: int| #[trigger] applies(s1, func, tup, i) implies app.len() > 0
            && app[0].index <= i by {
            let a = choose|a: int| 0 <= a < app.len() && (#[trigger] app[a]).index == i;
            if a > 0 {
                assert(app[0].index < app[a].index);
            }
        }
    }
}

/// Signatures without variables and unions are compared without a trace: where the
/// argument types and the signatures of a function's methods are plain, the most
/// specific method is selected.
pub proof fn law_plain_dispatch(s: State, func: u32, arg_types: Seq<u32>)
    requires
        ({
            let (s1, tup) = s.tuple_type(arg_types);
            &&& s1.types_agree()
            &&& 8 * s1.objs.len() <= crate::region::REGION_SIZE
            &&& s1.plain(tup)
            &&& s1.methods.len() <= usize::MAX
            &&& forall|i: int|
                #![trigger s1.methods[i]]
                0 <= i < s1.methods.len() && s1.methods[i].func == func ==> s1.plain(
                    s1.methods[i].sig,
                )
        }),
    ensures
        ({
            let (s1, tup) = s.tuple_type(arg_types);
            match s.select(func, arg_types).1 {
                None => forall|i: int| !(#[trigger] applies(s1, func, tup, i)),
                Some(x) => {
                    &&& applies(s1, func, tup, x as int)
                    &&& forall|m: int|
                        #![trigger narrowest(s1, func, tup, m)]
                        narrowest(s1, func, tup, m) ==> forall|j: int| #[trigger]
                            applies(s1, func, tup, j) ==> narrower(s1, x as int, j)
                },
            }
        }),
{
    let d = access::MAX_NESTING as nat;
    let (s1, tup) = s.tuple_type(arg_types);
    assert forall|i: int|
        #![trigger s1.methods[i]]
        0 <= i < s1.methods.len() && s1.methods[i].func == func implies s1.subtype(
        tup,
        s1.methods[i].sig,
        d,
    ).0 == s1 by {
        crate::ground::law_plain_query(s1, tup, s1.methods[i].sig, d);
    }
    assert forall|i: int, j: int|
        #![trigger s1.methods[i], s1.methods[j]]
        0 <= i < s1.methods.len() && 0 <= j < s1.methods.len() && s1.methods[i].func == func
            && s1.methods[j].func == func implies s1.subtype(
        s1.methods[i].sig,
        s1.methods[j].sig,
        d,
    ).0 == s1 by {
        crate::ground::law_plain_query(s1, s1.methods[i].sig, s1.methods[j].sig, d);
    }
    law_most_specific_is_selected(s, func, arg_types);
}

/// Whatever the queries leave behind, a method that is selected as the most specific one
/// was found to be a subtype of every applicable one: there is a run of queries, each in
/// the state that the one before left, that compares its signature with that of each
/// applicable method and answers all of them in the affirmative.
pub proof fn law_selection_asks_for_all(s: State, sig: u32, cs: Seq<Candidate>) -> (ts: Seq<State>)
    ensures
        ts.len() > 0,
        ts[0] == s,
        forall|j: int|
            #![trigger ts[j]]
            0 <= j < ts.len() - 1 ==> j < cs.len() && s_next(ts[j], sig, cs[j].sig) == ts[j + 1],
        s.below_all(sig, cs, 0).0 == ts.last(),
        s.below_all(sig, cs, 0).1 <==> ts.len() == cs.len() + 1 && forall|j: int|
            0 <= j < cs.len() ==> (#[trigger] ts[j]).subtype(
                sig,
                cs[j].sig,
                access::MAX_NESTING as nat,
            ).1,
{
    lemma_run(s, sig, cs, 0)
}

/// The state that a query leaves.
pub open spec fn s_next(s: State, a: u32, b: u32) -> State {
    s.subtype(a, b, access::MAX_NESTING as nat).0
}

proof fn lemma_run(s: State, sig: u32, cs: Seq<Candidate>, i: int) -> (ts: Seq<State>)
    requires
        0 <= i <= cs.len(),
    ensures
        ts.len() > 0,
        ts[0] == s,
        forall|j: int|
            #![trigger ts[j]]
            0 <= j < ts.len() - 1 ==> i + j < cs.len() && s_next(ts[j], sig, cs[i + j].sig)
                == ts[j + 1],
        s.below_all(sig, cs, i).0 == ts.last(),
        s.below_all(sig, cs, i).1 <==> ts.len() == cs.len() - i + 1 && forall|j: int|
            0 <= j < cs.len() - i ==> (#[trigger] ts[j]).subtype(
                sig,
                cs[i + j].sig,
                access::MAX_NESTING as nat,
            ).1,
    decreases cs.len() - i,
{
    if i == cs.len() {
        seq![s]
    } else {
        let (s1, ok) = s.subtype(sig, cs[i].sig, access::MAX_NESTING as nat);
        if ok {
            let rest = lemma_run(s1, sig, cs, i + 1);
            let ts = seq![s] + rest;
            assert(forall|j: int| 0 < j < ts.len() ==> #[trigger] ts[j] == rest[j - 1]);
            assert(ts.last() == rest.last());
            if s.below_all(sig, cs, i).1 {
                assert forall|j: int| 0 <= j < cs.len() - i implies (#[trigger] ts[j]).subtype(
                    sig,
                    cs[i + j].sig,
                    access::MAX_NESTING as nat,
                ).1 by {
                    if j > 0 {
                        assert(rest[j - 1].subtype(
                            sig,
                            cs[i + 1 + (j - 1)].sig,
                            access::MAX_NESTING as nat,
                        ).1);
                    }
                }
            }
            if ts.len() == cs.len() - i + 1 && forall|j: int|
                0 <= j < cs.len() - i ==> (#[trigger] ts[j]).subtype(
                    sig,
                    cs[i + j].sig,
                    access::MAX_NESTING as nat,
                ).1 {
                assert forall|j: int| 0 <= j < cs.len() - (i + 1) implies (
                #[trigger] rest[j]).subtype(
                    sig,
                    cs[i + 1 + j].sig,
                    access::MAX_NESTING as nat,
                ).1 by {
                    assert(ts[j + 1] == rest[j]);
                }
            }
            assert forall|j: int|
                #![trigger ts[j]]
                0 <= j < ts.len() - 1 implies i + j < cs.len() && s_next(ts[j], sig, cs[i + j].sig)
                == ts[j + 1] by {
                if j > 0 {
                    assert(rest[j - 1] == ts[j]);
                    assert(ts[j + 1] == rest[j]);
                    assert(s_next(rest[j - 1], sig, cs[i + 1 + (j - 1)].sig) == rest[j - 1 + 1]);
                } else {
                    assert(ts[1] == rest[0]);
                }
            }
            ts
        } else {
            let ts = seq![s, s1];
            assert(ts[0] == s && ts[1] == s1);
            ts
        }
    }
}

} // verus!
