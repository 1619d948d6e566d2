use ruju::abi::rj_init;
use ruju::access;
use ruju::egal;
use ruju::gc;
use ruju::gc::Rooted;
use ruju::id;
use ruju::instantiate::instantiate_unionall;
use ruju::object::type_of;
use ruju::state::{Runtime, Value};
use ruju::structs;
use ruju::symbol;
use ruju::types;
use ruju::value;
use ruju::value::{box_int, unbox_int};

fn started() -> Runtime {
    let mut rt = Runtime::new();
    rj_init(&mut rt).unwrap();
    rt
}

fn t(rt: &Runtime, i: u32) -> u32 {
    access::builtin(rt, i)
}

fn sub(rt: &mut Runtime, a: u32, b: u32) -> bool {
    types::issubtype(rt, a, b)
}

fn tup(rt: &mut Runtime, elems: &[u32]) -> u32 {
    types::tuple_type(rt, &elems.to_vec())
}

fn boxed(rt: &mut Runtime, a: u32) -> u32 {
    types::box_type(rt, a)
}

fn pair(rt: &mut Runtime, a: u32, b: u32) -> u32 {
    types::pair_type(rt, a, b)
}

fn uall(rt: &mut Runtime, v: u32, body: u32) -> u32 {
    types::unionall_type(rt, v, body)
}

fn var(rt: &mut Runtime, lb: u32, ub: u32) -> u32 {
    types::make_typevar(rt, "T", lb, ub)
}

fn tv(rt: &mut Runtime) -> u32 {
    let (lb, ub) = (t(rt, id::BOTTOM), t(rt, id::ANY));
    var(rt, lb, ub)
}

fn va(rt: &mut Runtime, a: u32) -> u32 {
    types::vararg_type(rt, a)
}

fn union2(rt: &mut Runtime, a: u32, b: u32) -> u32 {
    types::union_type(rt, a, b)
}

fn define(rt: &mut Runtime, name: &str, fields: &[(&str, u32)], mutabl: bool) -> u32 {
    let any = access::builtin(rt, id::ANY);
    let list: Vec<(Vec<u8>, u32)> =
        fields.iter().map(|f| (f.0.as_bytes().to_vec(), f.1)).collect();
    structs::define_struct(rt, &name.as_bytes().to_vec(), any, &list, mutabl)
}

fn float(rt: &mut Runtime, x: f64) -> Value {
    value::box_float64(rt, x.to_bits())
}

#[test]
fn hierarchy_and_nominal_subtyping() {
    let rt = &mut started();

    // Int64 <: Signed <: Integer <: Real <: Number <: Any.
    for sup in [id::SIGNED, id::INTEGER, id::REAL, id::NUMBER, id::ANY] {
        let (a, b) = (t(rt, id::INT64), t(rt, sup));
        assert!(sub(rt, a, b));
    }
    let mut below = |a: u32, b: u32| {
        let (a, b) = (t(rt, a), t(rt, b));
        sub(rt, a, b)
    };
    // Float64 <: AbstractFloat <: Real; Bool <: Integer; UInt8 <: Unsigned.
    assert!(below(id::FLOAT64, id::ABSTRACTFLOAT));
    assert!(below(id::BOOL, id::INTEGER));
    assert!(below(id::UINT8, id::UNSIGNED));
    // Everything is a subtype of Any; Any only of itself.
    assert!(below(id::CHAR, id::ANY));
    assert!(below(id::ANY, id::ANY));
    // Negative cases across branches.
    assert!(!below(id::INT64, id::FLOAT64));
    assert!(!below(id::INT64, id::UNSIGNED));
    assert!(!below(id::NUMBER, id::INT64));
}

#[test]
fn unionall_instantiation_matches_direct_construction() {
    let rt = &mut started();
    let (int, int8, bool_) = (t(rt, id::INT64), t(rt, id::INT8), t(rt, id::BOOL));

    // Uniquing makes instantiation === direct construction: identical offsets.
    // Box{T} where T  @Int  ==  Box{Int}
    let bt = tv(rt);
    let body = boxed(rt, bt);
    let w = uall(rt, bt, body);
    let got = instantiate_unionall(rt, w, int);
    assert_eq!(got, boxed(rt, int));
    // Tuple{T,T} where T  @Int  ==  Tuple{Int,Int}
    let tt = tv(rt);
    let body = tup(rt, &[tt, tt]);
    let w = uall(rt, tt, body);
    let got = instantiate_unionall(rt, w, int);
    assert_eq!(got, tup(rt, &[int, int]));
    // Nested parametric: Tuple{T, Box{T}} where T  @Int
    let nt = tv(rt);
    let inner = boxed(rt, nt);
    let body = tup(rt, &[nt, inner]);
    let w = uall(rt, nt, body);
    let got = instantiate_unionall(rt, w, int);
    let inner = boxed(rt, int);
    assert_eq!(got, tup(rt, &[int, inner]));
    // Union member: Union{T,Int8} where T  @Int  ==  Union{Int,Int8}. Unions
    // are not interned, so compare structurally rather than by offset.
    let ut = tv(rt);
    let body = union2(rt, ut, int8);
    let w = uall(rt, ut, body);
    let inst_u = instantiate_unionall(rt, w, int);
    let direct_u = union2(rt, int, int8);
    assert!(sub(rt, inst_u, direct_u) && sub(rt, direct_u, inst_u));
    // Second parameter of a Pair: Pair{Int,S} where S  @Bool
    let st = tv(rt);
    let body = pair(rt, int, st);
    let w = uall(rt, st, body);
    let got = instantiate_unionall(rt, w, bool_);
    assert_eq!(got, pair(rt, int, bool_));
    // A variable that does not occur leaves the body identical.
    let zt = tv(rt);
    let body = boxed(rt, int);
    let w = uall(rt, zt, body);
    let got = instantiate_unionall(rt, w, bool_);
    assert_eq!(got, boxed(rt, int));

    assert_eq!(gc::root_count(rt), 0, "roots released after instantiation");
}

#[test]
fn pair_invariant_and_diagonal_subtyping() {
    let rt = &mut started();
    let (int, int8) = (t(rt, id::INT64), t(rt, id::INT8));

    // `Pair{Int,Int8} <: Pair{T,S} where {T,S}` but the diagonal
    // `Pair{T,T} where T` excludes it.
    let a = tv(rt);
    let b = tv(rt);
    let p = pair(rt, a, b);
    let inner = uall(rt, b, p);
    let bare_pair = uall(rt, a, inner);
    let ii8 = pair(rt, int, int8);
    assert!(sub(rt, ii8, bare_pair));
    let d = tv(rt);
    let p = pair(rt, d, d);
    let diag_pair = uall(rt, d, p);
    assert!(!sub(rt, ii8, diag_pair));
    // `Pair{T,T} where T <: Pair{Int,Int}` is false: no single T is both
    // invariantly.
    let ii = pair(rt, int, int);
    assert!(!sub(rt, diag_pair, ii));
    // Invariance: distinct instantiations are unrelated but reflexive.
    let (integer, signed) = (t(rt, id::INTEGER), t(rt, id::SIGNED));
    let wide = pair(rt, integer, signed);
    assert!(!sub(rt, ii8, wide));
    let again = pair(rt, int, int8);
    assert!(sub(rt, ii8, again));

    assert_eq!(gc::root_count(rt), 0, "roots released after subtype queries");
}

#[test]
fn tuple_varargs_subtyping() {
    let rt = &mut started();
    let (int, integer, real, any) =
        (t(rt, id::INT64), t(rt, id::INTEGER), t(rt, id::REAL), t(rt, id::ANY));
    let number = t(rt, id::NUMBER);
    let va_int = va(rt, int);
    let va_integer = va(rt, integer);
    let va_real = va(rt, real);
    let va_any = va(rt, any);
    let mut below = |a: &[u32], b: &[u32]| {
        let a = tup(rt, a);
        let b = tup(rt, b);
        sub(rt, a, b)
    };

    // A fixed tuple is a strict subtype of a matching Vararg tail.
    assert!(below(&[int, int], &[va_int]));
    assert!(!below(&[va_int], &[int, int]));
    assert!(below(&[int, va_int], &[va_int]));
    // Element subtyping flows through the vararg; width widens.
    assert!(below(&[int, int], &[int, va_integer]));
    // The empty tuple is under any unbounded Vararg.
    assert!(below(&[], &[va_any]));
    // Unbounded left, fixed/short right is rejected.
    assert!(!below(&[va_int], &[int]));
    assert!(!below(&[va_integer], &[integer, integer, va_integer]));
    // A non-matching element still fails through the vararg.
    assert!(!below(&[va_int], &[number, integer]));
    // Vararg{S} <: Vararg{T} reduces to S <: T, strictly.
    assert!(below(&[integer, va_integer], &[integer, va_real]));
    assert!(!below(&[integer, va_real], &[integer, va_integer]));

    assert_eq!(gc::root_count(rt), 0, "roots released after subtype queries");
}

#[test]
fn primitive_sizes_match_julia() {
    let rt = started();
    let sz = |i| access::size_of(&rt, access::builtin(&rt, i));
    assert_eq!((sz(id::BOOL), sz(id::INT8), sz(id::INT16)), (1, 1, 2));
    assert_eq!((sz(id::INT32), sz(id::INT64), sz(id::INT128)), (4, 8, 16));
    assert_eq!((sz(id::FLOAT16), sz(id::FLOAT32), sz(id::FLOAT64)), (2, 4, 8));
    assert_eq!((sz(id::CHAR), sz(id::UINT64)), (4, 8));
}

#[test]
fn type_names_are_real_interned_symbols() {
    let rt = started();
    // The name of Int64 is the Symbol "Int64" (length 5); interning is shared.
    assert_eq!(symbol::len(&rt, access::type_sym(&rt, t(&rt, id::INT64))), 5);
    assert_eq!(symbol::len(&rt, access::type_sym(&rt, t(&rt, id::DATATYPE))), 8);
    assert_eq!(
        access::type_sym(&rt, t(&rt, id::BOOL)),
        access::type_sym(&rt, t(&rt, id::BOOL)),
        "interning yields a single name Symbol",
    );
}

#[test]
fn tuple_types_are_uniqued() {
    let rt = &mut started();
    let (int, float) = (t(rt, id::INT64), t(rt, id::FLOAT64));

    // Structurally identical tuple types are the same object (===).
    let a = tup(rt, &[int, int]);
    let b = tup(rt, &[int, int]);
    assert_eq!(a, b, "identical tuple types must be ===");
    let c = tup(rt, &[int, float]);
    assert_ne!(a, c, "different tuple types are distinct");

    // Uniquing is recursive: a nested tuple resolves to the same object.
    let inner = tup(rt, &[int]);
    let o1 = tup(rt, &[inner, int]);
    let inner = tup(rt, &[int]);
    let o2 = tup(rt, &[inner, int]);
    assert_eq!(o1, o2, "nested tuple types unique recursively");

    // The cache survives collection. After a full GC the cache is old; a
    // minor GC keeps it, and the write barrier covers fresh insertions into
    // the now-old TypeName.
    gc::collect_full(rt);
    for _ in 0..30 {
        let _ = box_int(rt, 0);
    }
    gc::collect(rt);
    assert_eq!(tup(rt, &[int, int]), a, "the type cache survives GC");
}

#[test]
fn parametric_types_are_invariant() {
    let rt = &mut started();
    let (int, integer, any) = (t(rt, id::INT64), t(rt, id::INTEGER), t(rt, id::ANY));

    // Identical instantiations are the same object (uniqued) and reflexive.
    let bi = boxed(rt, int);
    assert_eq!(bi, boxed(rt, int), "identical Box instantiations are uniqued");
    assert!(sub(rt, bi, bi));

    // Invariance: even though Int64 <: Integer, the boxes are unrelated.
    let bint = boxed(rt, integer);
    assert!(sub(rt, int, integer), "precondition: Int64 <: Integer");
    assert!(!sub(rt, bi, bint), "Box is invariant: Box-of-Int64 not a subtype of Box-of-Integer");
    assert!(!sub(rt, bint, bi), "nor the reverse");

    // But a box is still a subtype of Any, and a covariant tuple of invariant
    // boxes composes the two rules correctly.
    assert!(sub(rt, bi, any));
    let tup_i = tup(rt, &[bi]);
    let tup_int = tup(rt, &[bint]);
    assert!(sub(rt, tup_i, tup_i));
    assert!(!sub(rt, tup_i, tup_int), "a tuple of invariant boxes is not a subtype");
}

#[test]
fn parametric_subtyping_tuples_unions_bottom() {
    let rt = &mut started();
    let bottom = t(rt, id::BOTTOM);
    let (int, integer, real) = (t(rt, id::INT64), t(rt, id::INTEGER), t(rt, id::REAL));
    let (float, ch) = (t(rt, id::FLOAT64), t(rt, id::CHAR));

    // Bottom is below everything; only Bottom is below Bottom.
    assert!(sub(rt, bottom, int));
    assert!(!sub(rt, int, bottom));
    assert!(sub(rt, bottom, bottom));

    // Covariant tuples.
    let ii = tup(rt, &[int, int]);
    let ir = tup(rt, &[integer, real]);
    assert!(sub(rt, ii, ir)); // Int<:Integer, Int<:Real
    let fi = tup(rt, &[float, int]);
    assert!(!sub(rt, fi, ir)); // Float64 not <: Integer
    let one = tup(rt, &[int]);
    assert!(!sub(rt, one, ii)); // length mismatch
    assert!(sub(rt, ii, ii)); // reflexive over distinct objects

    // Unions: forall on the left, exists on the right.
    let u = union2(rt, int, float);
    assert!(sub(rt, int, u)); // Int <: Union{Int,Float64}
    assert!(sub(rt, u, real)); // both members <: Real
    assert!(sub(rt, u, u)); // union reflexive
    let uic = union2(rt, int, ch);
    assert!(!sub(rt, uic, real)); // Char not <: Real

    // Union simplification.
    assert_eq!(union2(rt, bottom, int), int);
    assert_eq!(union2(rt, int, int), int);

    // Tuples nest with unions, covariantly.
    let rc = union2(rt, real, ch);
    let nested = tup(rt, &[int, rc]);
    assert!(sub(rt, ii, nested));
}

// Union normalization: flatten nested unions, drop members subsumed by another,
// and order canonically so the result is independent of argument order.
#[test]
fn unions_are_normalized() {
    let rt = &mut started();
    let (int, real, any) = (t(rt, id::INT64), t(rt, id::REAL), t(rt, id::ANY));
    let (bottom, float) = (t(rt, id::BOTTOM), t(rt, id::FLOAT64));

    // A member subsumed by another is dropped: Union{Int,Real} == Real.
    assert_eq!(union2(rt, int, real), real);
    assert_eq!(union2(rt, real, int), real);
    // Everything collapses to Any; nothing collapses to Union{}.
    assert_eq!(union2(rt, int, any), any);
    assert_eq!(types::union_of(rt, &vec![bottom, bottom]), bottom);

    // Nested unions flatten and dedup: Union{Int, Union{Float64, Int}} has
    // exactly the two distinct members Int and Float64.
    let inner = union2(rt, float, int);
    let outer = union2(rt, int, inner);
    assert!(access::is_union(rt, outer));
    assert!(!access::is_union(rt, access::union_a(rt, outer)), "a flat union has non-union members");
    assert!(!access::is_union(rt, access::union_b(rt, outer)));
    let plain = union2(rt, int, float);
    assert!(sub(rt, outer, plain));
    let plain = union2(rt, int, float);
    assert!(sub(rt, plain, outer));

    // Order independence: Union{Int,Float64} and Union{Float64,Int} build the
    // same canonical member order.
    let u1 = union2(rt, int, float);
    let u2 = union2(rt, float, int);
    assert_eq!(access::union_a(rt, u1), access::union_a(rt, u2));
    assert_eq!(access::union_b(rt, u1), access::union_b(rt, u2));

    assert_eq!(gc::root_count(rt), 0, "roots balanced after union normalization");
}

// Identity and structural equality: identity, payload bits, structure, and the
// asymmetry between the two about the names of bound variables.
#[test]
fn egal_and_types_egal() {
    let rt = &mut started();
    let (int, integer) = (t(rt, id::INT64), t(rt, id::INTEGER));
    let (bottom, any, nothing_t) = (t(rt, id::BOTTOM), t(rt, id::ANY), t(rt, id::NOTHING));

    // Distinct boxes, equal bits: egal compares the payload, not identity.
    let (a, b) = (box_int(rt, 5), box_int(rt, 5));
    assert_ne!(a.0, b.0, "two boxes are distinct objects");
    assert!(egal::egal(rt, a, b));
    let (a, b) = (box_int(rt, 5), box_int(rt, 6));
    assert!(!egal::egal(rt, a, b));
    // Type tags must match: Int64(1) is not Bool(true) or Float64.
    let (a, b) = (box_int(rt, 1), value::box_bool(rt, true));
    assert!(!egal::egal(rt, a, b));
    let (a, b) = (box_int(rt, 0), float(rt, 0.0));
    assert!(!egal::egal(rt, a, b));

    // Bitwise float semantics — where `===` and `==` disagree:
    // NaN === NaN (equal bits) though NaN == NaN is false …
    let (a, b) = (float(rt, f64::NAN), float(rt, f64::NAN));
    assert!(egal::egal(rt, a, b));
    let nan = f64::NAN;
    assert!(!(nan == nan));
    // … and -0.0 !== 0.0 (different bits) though -0.0 == 0.0 is true.
    let (a, b) = (float(rt, -0.0), float(rt, 0.0));
    assert!(!egal::egal(rt, a, b));
    assert!(-0.0 == 0.0);

    // Identity-only kinds: the permboxes and `nothing`.
    assert!(egal::egal(rt, value::box_bool(rt, true), value::box_bool(rt, true)));
    assert!(!egal::egal(rt, value::box_bool(rt, true), value::box_bool(rt, false)));
    assert!(egal::egal(rt, value::nothing(rt), value::nothing(rt)));

    // Types: uniqued instantiations are identical; distinct instantiations
    // differ; structurally equal unions built separately are egal even
    // though they are distinct objects.
    let (a, b) = (boxed(rt, int), boxed(rt, int));
    assert!(egal::egal(rt, Value(a), Value(b)));
    let (a, b) = (boxed(rt, int), boxed(rt, integer));
    assert!(!egal::egal(rt, Value(a), Value(b)));
    let u1 = union2(rt, int, nothing_t);
    let u2 = union2(rt, nothing_t, int);
    assert!(egal::egal(rt, Value(u1), Value(u2)));

    // (Tuple{T,T} where T) vs (Tuple{R,R} where R) is types_egal
    // (alpha-equivalent) but NOT === (names matter to egal).
    let mut wh = |rt: &mut Runtime, name: &str| {
        let v = types::make_typevar(rt, name, bottom, any);
        let body = tup(rt, &[v, v]);
        uall(rt, v, body)
    };
    let (wt, wr) = (wh(rt, "T"), wh(rt, "R"));
    assert!(egal::types_egal(rt, wt, wr));
    assert!(!egal::egal(rt, Value(wt), Value(wr)));
    // Same name, separately built: both equal.
    let wt2 = wh(rt, "T");
    assert!(egal::types_egal(rt, wt, wt2));
    assert!(egal::egal(rt, Value(wt), Value(wt2)));
    // Free typevars: equal only to themselves.
    let fv1 = types::make_typevar(rt, "X", bottom, any);
    let fv2 = types::make_typevar(rt, "X", bottom, any);
    assert!(egal::types_egal(rt, fv1, fv1));
    assert!(!egal::types_egal(rt, fv1, fv2));

    assert_eq!(gc::root_count(rt), 0, "roots balanced");
}

// The instance field of a type, the shared Bool boxes, and the tiers of the
// canonical order of union members.
#[test]
fn singletons_and_bool_permboxes() {
    let rt = &mut started();
    let (nothing_t, bool_t, int) = (t(rt, id::NOTHING), t(rt, id::BOOL), t(rt, id::INT64));

    // `nothing` is Nothing's `instance`; Nothing is a singleton type, Bool
    // and Integer are not.
    assert_eq!(access::nothing_instance(rt), access::instance_of(rt, nothing_t));
    assert!(access::is_datatype_singleton(rt, nothing_t));
    assert!(!access::is_datatype_singleton(rt, bool_t));
    assert!(!access::is_datatype_singleton(rt, t(rt, id::INTEGER)));

    // Boxing returns the shared true and false — the same object every time,
    // never a fresh allocation.
    assert_eq!(value::box_bool(rt, true).0, value::box_bool(rt, true).0);
    assert_eq!(value::box_bool(rt, false).0, value::box_bool(rt, false).0);
    assert_ne!(value::box_bool(rt, true).0, value::box_bool(rt, false).0);
    assert!(value::unbox_bool(rt, value::box_bool(rt, true)));
    assert!(!value::unbox_bool(rt, value::box_bool(rt, false)));
    assert_eq!(type_of(rt, value::box_bool(rt, true)), bool_t);

    // A zero-field immutable struct is a singleton with an eager instance.
    let unit = define(rt, "UnitLike", &[], false);
    assert!(access::is_datatype_singleton(rt, unit));
    assert_eq!(type_of(rt, Value(access::instance_of(rt, unit))), unit);

    // The singleton Nothing sorts before the isbits Int64 (alphabetically
    // Int64 < Nothing — only the tier explains this order), and isbits Int64
    // sorts before the non-isbits Box{Int64}.
    let u = union2(rt, int, nothing_t);
    assert_eq!(access::union_a(rt, u), nothing_t);
    assert_eq!(access::union_b(rt, u), int);
    let b = boxed(rt, int);
    let v = union2(rt, b, int);
    assert_eq!(access::union_a(rt, v), int);

    assert_eq!(gc::root_count(rt), 0, "roots balanced");
}

// The `where` machinery and the environment-based subtype algorithm: a variable
// bound on the right is existential (∃), on the left universal (∀).
#[test]
fn where_types_unionall_and_typevars() {
    let rt = &mut started();
    let any = t(rt, id::ANY);
    let bottom = t(rt, id::BOTTOM);
    let (int, integer, number, fl) =
        (t(rt, id::INT64), t(rt, id::INTEGER), t(rt, id::NUMBER), t(rt, id::FLOAT64));

    // `Box{T} where T` — an unbounded existential when on the right.
    let mut where_box = |rt: &mut Runtime, lb: u32, ub: u32| {
        let tv = var(rt, lb, ub);
        let body = boxed(rt, tv);
        uall(rt, tv, body)
    };

    // Box{Int} <: (Box{T} where T)   — ∃T, true (T = Int).
    let bi = boxed(rt, int);
    let w = where_box(rt, bottom, any);
    assert!(sub(rt, bi, w));
    // (Box{T} where T) <: Box{Int}   — ∀T, false (T need not be Int).
    let w = where_box(rt, bottom, any);
    assert!(!sub(rt, w, bi));
    // A `where` type is still a subtype of Any.
    let w = where_box(rt, bottom, any);
    assert!(sub(rt, w, any));

    // Bounded vars and invariant matching across two `where`s.
    // (Box{T} where T<:Integer) <: (Box{S} where S<:Number)  — true.
    let lhs_ti = where_box(rt, bottom, integer);
    let rhs_sn = where_box(rt, bottom, number);
    assert!(sub(rt, lhs_ti, rhs_sn));
    // (Box{T} where T<:Number) <: (Box{S} where S<:Integer)  — false
    // (T could be Float64, with no matching S<:Integer).
    let lhs_tn = where_box(rt, bottom, number);
    let rhs_si = where_box(rt, bottom, integer);
    assert!(!sub(rt, lhs_tn, rhs_si));

    // Two distinct *free* type variables are never subtypes, regardless of
    // how permissive their declared bounds are.
    let free_x = var(rt, bottom, int); // ub would satisfy lb below
    let free_y = var(rt, number, any);
    assert!(!sub(rt, free_x, free_y));
    let (x, y) = (var(rt, bottom, any), var(rt, bottom, any));
    assert!(!sub(rt, x, y));

    // Covariant tuple under a `where`: Tuple{Int,Float64} <: (Tuple{T,S} where S where T).
    let tvv = var(rt, bottom, any);
    let sv = var(rt, bottom, any);
    let inner = tup(rt, &[tvv, sv]);
    let inner = uall(rt, sv, inner);
    let two_var_tuple = uall(rt, tvv, inner);
    let if_ = tup(rt, &[int, fl]);
    assert!(sub(rt, if_, two_var_tuple));

    // The diagonal rule: a variable occurring twice, only covariantly, is
    // constrained to concrete types. Tuple{Int,Int} <: (Tuple{T,T} where T)
    // is true (T = Int, concrete), but Tuple{Int,Float64} <: (Tuple{T,T}
    // where T) is false — the join Union{Int,Float64} is not a leaf type.
    let mut diag = |rt: &mut Runtime| {
        let dv = var(rt, bottom, any);
        let body = tup(rt, &[dv, dv]);
        uall(rt, dv, body)
    };
    let ii = tup(rt, &[int, int]);
    let d = diag(rt);
    assert!(sub(rt, ii, d), "homogeneous tuple satisfies the diagonal var");
    let i_f = tup(rt, &[int, fl]);
    let d = diag(rt);
    assert!(!sub(rt, i_f, d), "heterogeneous tuple fails the diagonal rule");
    // (The two-distinct-vars case `Tuple{Int,Float64} <: Tuple{T,S}` above is
    // unaffected: each variable occurs once, so neither is diagonal.)

    // Two existential vars live in the environment simultaneously, each
    // bound through an invariant Box: each resolves independently to its
    // concrete element, so this holds.
    // Tuple{Box{Int},Box{Float64}} <: (Tuple{Box{T},Box{S}} where S where T).
    let tvb = var(rt, bottom, any);
    let svb = var(rt, bottom, any);
    let (bt, bs) = (boxed(rt, tvb), boxed(rt, svb));
    let inner_boxes = tup(rt, &[bt, bs]);
    let inner = uall(rt, svb, inner_boxes);
    let two_box = uall(rt, tvb, inner);
    let (b1, b2) = (boxed(rt, int), boxed(rt, fl));
    let concrete_boxes = tup(rt, &[b1, b2]);
    assert!(sub(rt, concrete_boxes, two_box), "independent existentials each bind their box element");
    // But a single shared var cannot match two different box elements:
    // Tuple{Box{Int},Box{Float64}} NOT <: (Tuple{Box{T},Box{T}} where T).
    let uvb = var(rt, bottom, any);
    let bu = boxed(rt, uvb);
    let body = tup(rt, &[bu, bu]);
    let shared_box = uall(rt, uvb, body);
    assert!(!sub(rt, concrete_boxes, shared_box), "one var cannot equal two distinct box elements");

    assert_eq!(gc::root_count(rt), 0, "roots balanced after where-subtyping");
}

// Two regressions of the subtype algorithm, with Ref{T} as Box{T} (both are
// single-parameter and invariant).
#[test]
fn oracle_regressions_from_subtype_jl() {
    let rt = &mut started();
    let (bottom, any) = (t(rt, id::BOTTOM), t(rt, id::ANY));
    let (int, integer) = (t(rt, id::INT64), t(rt, id::INTEGER));

    // Tuple{Integer,Int} <: (Tuple{T, S} where S<:T where T). The occurrence of
    // T inside S's bound must not make T diagonal.
    let big = var(rt, bottom, any);
    let small = var(rt, bottom, big); // S <: T
    let body = tup(rt, &[big, small]);
    let inner = uall(rt, small, body);
    let l179 = uall(rt, big, inner);
    let lhs = tup(rt, &[integer, int]);
    assert!(sub(rt, lhs, l179));

    // Tuple{Ref{Int},Ref{Integer}} is NOT <: (Tuple{Ref{S},Ref{T}} where S>:T
    // where T). The join must keep the S>:T link rather than collapse it, so
    // the contradiction (S=Int, T=Integer) is caught.
    let tt = var(rt, bottom, any);
    let ss = var(rt, tt, any); // S >: T
    let (bs, bt) = (boxed(rt, ss), boxed(rt, tt));
    let body = tup(rt, &[bs, bt]);
    let inner = uall(rt, ss, body);
    let l496 = uall(rt, tt, inner);
    let (b1, b2) = (boxed(rt, int), boxed(rt, integer));
    let lhs = tup(rt, &[b1, b2]);
    assert!(!sub(rt, lhs, l496));

    assert_eq!(gc::root_count(rt), 0, "roots balanced");
}

#[test]
fn parametric_types_survive_collection() {
    let rt = &mut started();
    let (int, real) = (t(rt, id::INT64), t(rt, id::REAL));
    // Root a tuple type across a collection; its parameters svec must survive.
    let v = tup(rt, &[int, real]);
    let root = Rooted::new(rt, Value(v));
    for i in 0..50 {
        let _ = box_int(rt, i); // garbage
    }
    gc::collect(rt);
    // The tuple type and its parameters are intact: subtyping still resolves.
    let ii = tup(rt, &[int, int]);
    let wide = root.get(rt).raw();
    assert!(sub(rt, ii, wide));
}

#[test]
fn typenames_identify_types_and_are_shared_by_tuples() {
    let rt = &mut started();
    let (int, real, fl) = (t(rt, id::INT64), t(rt, id::REAL), t(rt, id::FLOAT64));

    // A type's `name` is a TypeName object (typed TypeName) holding its symbol.
    let tn = access::name_of(rt, int);
    assert_eq!(type_of(rt, Value(tn)), t(rt, id::TYPENAME));
    assert_eq!(symbol::len(rt, access::typename_sym(rt, tn)), 5); // "Int64"

    // Distinct nominal types have distinct TypeNames.
    assert_ne!(access::name_of(rt, int), access::name_of(rt, fl));

    // Every tuple type shares the one `Tuple` TypeName.
    let t1 = tup(rt, &[int]);
    let t2 = tup(rt, &[int, real]);
    assert_eq!(access::name_of(rt, t1), access::name_of(rt, t2));
    assert!(access::is_tuple(rt, t1) && access::is_tuple(rt, t2));
    assert!(!access::is_tuple(rt, int));

    // TypeNames (and the symbols they hold) survive collection.
    for i in 0..30 {
        let _ = box_int(rt, i);
    }
    gc::collect(rt);
    assert_eq!(symbol::len(rt, access::type_sym(rt, int)), 5);
}

// Computed field layout (inline isbits vs references), construction and field
// access, mutability, and the GC pointer bitmap.
#[test]
fn structs_layout_construction_and_field_access() {
    let rt = &mut started();
    let (int, integer, number) = (t(rt, id::INT64), t(rt, id::INTEGER), t(rt, id::NUMBER));
    let (int8, int32, bool_t) = (t(rt, id::INT8), t(rt, id::INT32), t(rt, id::BOOL));

    // Immutable Point{Int64, Int64}: both fields inline, no GC pointers.
    let point = define(rt, "PointII", &[("x", int), ("y", int)], false);
    assert_eq!(access::nfields_of(rt, point), 2);
    assert_eq!(access::size_of(rt, point), 16); // two inline 8-byte fields
    assert_eq!(access::layout_npointers(rt, point), 0);
    assert!(!access::field_isptr(rt, point, 0) && !access::field_isptr(rt, point, 1));
    assert_eq!(access::field_offset(rt, point, 1), 8);

    let args = vec![box_int(rt, 3), box_int(rt, 4)];
    let p = structs::new_struct(rt, point, &args).unwrap();
    assert_eq!(type_of(rt, p), point);
    // getfield re-boxes the inline bits as the declared field type.
    let x = structs::get_nth_field(rt, p, 0).unwrap();
    assert_eq!(unbox_int(rt, x), 3);
    let y = structs::get_nth_field(rt, p, 1).unwrap();
    assert_eq!(unbox_int(rt, y), 4);
    let x = structs::get_nth_field(rt, p, 0).unwrap();
    assert_eq!(type_of(rt, x), int);
    // Field lookup by name (interned-symbol identity).
    let st = t(rt, id::SYMBOL);
    let ysym = symbol::intern(rt, st, "y");
    assert_eq!(structs::field_index(rt, point, ysym), Some(1));
    // setfield! on an immutable struct is an error.
    let nine = box_int(rt, 9);
    assert!(structs::set_nth_field(rt, p, 0, nine).is_err());

    // Mutable struct with an abstract-typed field: stored as a reference,
    // visible in the GC bitmap, and assignable through the barrier.
    let cell = define(rt, "CellLike", &[("v", integer)], true);
    assert_eq!(access::layout_npointers(rt, cell), 1);
    assert!(access::field_isptr(rt, cell, 0));
    let seven = box_int(rt, 7);
    let c = structs::new_struct(rt, cell, &vec![seven]).unwrap();
    let c_root = Rooted::new(rt, c);
    let f = structs::get_nth_field(rt, c, 0).unwrap();
    assert_eq!(unbox_int(rt, f), 7);
    let eight = box_int(rt, 8);
    structs::set_nth_field(rt, c, 0, eight).unwrap();
    let f = structs::get_nth_field(rt, c, 0).unwrap();
    assert_eq!(unbox_int(rt, f), 8);
    // The declared type is enforced: a Float64 is not an Integer.
    let one = float(rt, 1.0);
    assert!(structs::set_nth_field(rt, c, 0, one).is_err());
    // The reference field survives a collection (bitmap-driven tracing).
    gc::collect(rt);
    let f = structs::get_nth_field(rt, c, 0).unwrap();
    assert_eq!(unbox_int(rt, f), 8);

    // Arity and isa checks at construction.
    let args = vec![box_int(rt, 1)];
    assert!(structs::new_struct(rt, point, &args).is_err());
    let args = vec![box_int(rt, 1), float(rt, 2.0)];
    assert!(structs::new_struct(rt, point, &args).is_err());

    // Mixed layout: inline Bool (1 byte) then a reference — alignment puts
    // the reference at offset 4.
    let mixed = define(rt, "MixedBF", &[("flag", bool_t), ("val", number)], true);
    assert_eq!(access::field_offset(rt, mixed, 0), 0);
    assert_eq!(access::field_offset(rt, mixed, 1), 4);
    let args = vec![value::box_bool(rt, true), float(rt, 2.5)];
    let mv = structs::new_struct(rt, mixed, &args).unwrap();
    let m = Rooted::new(rt, mv);
    let f = structs::get_nth_field(rt, mv, 0).unwrap();
    assert!(value::unbox_bool(rt, f));
    let f = structs::get_nth_field(rt, mv, 1).unwrap();
    assert_eq!(f64::from_bits(value::unbox_float64(rt, f)), 2.5);

    m.release(rt);
    c_root.release(rt);

    // A nested struct aligns to its *fields'* max alignment, not its size — and
    // the total size pads to the struct alignment.
    let inner = define(rt, "Inner32x2", &[("a", int32), ("b", int32)], false);
    assert_eq!(access::size_of(rt, inner), 8);
    let outer = define(rt, "OuterI8Inner", &[("tag", int8), ("inner", inner)], false);
    // Inner{Int32,Int32} has alignment 4 (not 8): it sits at offset 4.
    assert_eq!(access::field_offset(rt, outer, 1), 4);
    assert_eq!(access::size_of(rt, outer), 12);
    // {Int64, Bool} is 9 bytes of fields, 16 bytes of struct.
    let padded = define(rt, "PaddedI64B", &[("n", int), ("flag", bool_t)], false);
    assert_eq!(access::size_of(rt, padded), 16);
    // Nested inline construction round-trips through the exact copy size.
    let args = vec![value::box_int32(rt, 11), value::box_int32(rt, 22)];
    let iv = structs::new_struct(rt, inner, &args).unwrap();
    let args = vec![value::box_int8(rt, 1), iv];
    let ov = structs::new_struct(rt, outer, &args).unwrap();
    let ov_root = Rooted::new(rt, ov);
    let got_inner = structs::get_nth_field(rt, ov, 1).unwrap();
    assert_eq!(type_of(rt, got_inner), inner);
    let f = structs::get_nth_field(rt, got_inner, 0).unwrap();
    assert_eq!(value::unbox_int32(rt, f), 11);
    let f = structs::get_nth_field(rt, got_inner, 1).unwrap();
    assert_eq!(value::unbox_int32(rt, f), 22);

    ov_root.release(rt);
    assert_eq!(gc::root_count(rt), 0, "roots balanced");
}

// The remaining primitive boxings round-trip, carry their type, and egal
// by bits within a width but never across types.
#[test]
fn primitive_boxing_round_trips() {
    let rt = &mut started();
    let v = value::box_int8(rt, -5);
    assert_eq!(value::unbox_int8(rt, v), -5);
    let v = value::box_int16(rt, -300);
    assert_eq!(value::unbox_int16(rt, v), -300);
    let v = value::box_int32(rt, 70_000);
    assert_eq!(value::unbox_int32(rt, v), 70_000);
    let v = value::box_uint8(rt, 200);
    assert_eq!(value::unbox_uint8(rt, v), 200);
    let v = value::box_uint16(rt, 60_000);
    assert_eq!(value::unbox_uint16(rt, v), 60_000);
    let v = value::box_uint32(rt, 4_000_000_000);
    assert_eq!(value::unbox_uint32(rt, v), 4_000_000_000);
    let v = value::box_uint64(rt, u64::MAX);
    assert_eq!(value::unbox_uint64(rt, v), u64::MAX);
    let v = value::box_float32(rt, 1.5f32.to_bits());
    assert_eq!(f32::from_bits(value::unbox_float32(rt, v)), 1.5);
    let v = value::box_char(rt, 0x41);
    assert_eq!(value::unbox_char(rt, v), 0x41);
    let v = value::box_int8(rt, 1);
    assert_eq!(type_of(rt, v), t(rt, id::INT8));
    let v = value::box_char(rt, 7);
    assert_eq!(type_of(rt, v), t(rt, id::CHAR));
    let (a, b) = (value::box_int8(rt, 7), value::box_int8(rt, 7));
    assert!(egal::egal(rt, a, b));
    let (a, b) = (value::box_int8(rt, 7), value::box_uint8(rt, 7));
    assert!(!egal::egal(rt, a, b)); // types differ
}
