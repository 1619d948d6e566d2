//! What the operators of the source language compute.
//!
//! An operator is read from its text, lowered to a statement and run. On integers what
//! the statement leaves is told here by the operator's text and the integers alone.

use vstd::prelude::*;
use crate::access::MAX_NESTING;
use crate::bytes::{word_at, word_fits};
use crate::frontend::{expr_code, LowV};
use crate::id;
use crate::interp_spec::{Applied, FloatCall, FloatOp, Flow, Num};
use crate::intrinsics::{ashr, lshr, sdiv, shl, srem, wrap};
use crate::ir::{stmt_view, Builtin, Op, Stmt, StmtV};
use crate::lexer::{scan, Scan};
use crate::parser::{op_at, BinOp, Expr};
use crate::region::NULL;
use crate::state::{State, Value};

verus! {

/// Whether `v` is a boxed integer with the value `x`.
pub open spec fn is_int(s: State, v: u32, x: i64) -> bool {
    &&& v != NULL
    &&& s.tag(v) == s.builtin(id::INT64)
    &&& s.data(v).len() == 8
    &&& s.unbox_int(v) == x
}

/// Whether an operand is a slot or a result that holds the integer `x`.
pub open spec fn holds_int(s: State, base: int, nslots: int, op: Op, x: i64) -> bool {
    match op {
        Op::Slot(k) => 0 <= base && base + k < s.roots.len() && is_int(s, s.roots[base + k], x),
        Op::Ssa(i) => 0 <= base + nslots && base + nslots + i < s.roots.len() && is_int(
            s,
            s.roots[base + nslots + i],
            x,
        ),
        _ => false,
    }
}

/// Whether integers are boxes of eight bytes, of a type of their own.
pub open spec fn boxes_ints(s: State) -> bool {
    let t = s.builtin(id::INT64);
    &&& s.size_of(t) == 8
    &&& t % 4 == 0
    &&& t != NULL
    &&& t != s.builtin(id::FLOAT64)
    &&& t != s.builtin(id::SYMBOL)
    &&& t != s.builtin(id::BOOL)
    &&& t != s.builtin(id::NOTHING)
    &&& t != s.builtin(id::TVAR)
    &&& t != s.builtin(id::TYPENAME)
    &&& t != s.builtin(id::SVEC)
    &&& t != s.builtin(id::UNION)
    &&& t != s.builtin(id::UNIONALL)
    &&& t != s.builtin(id::DATATYPE)
    &&& s.is_primitive(t)
}

/// Whether a statement leaves a box of the integer `n` in the root `at` and goes on:
/// the box is what boxing `n` gives beside two operands, and holds `n` where there was
/// memory for it.
pub open spec fn leaves_int(t: State, out: (State, Flow), at: int, n: i64) -> bool {
    &&& out.1 == Flow::Next
    &&& 0 <= at < out.0.roots.len()
    &&& out.0.roots.len() == t.roots.len()
    &&& exists|p: u32, q: u32| out.0.roots[at] == #[trigger] beside(t, p, q).box_int(n).1
    &&& out.0.roots[at] != NULL ==> is_int(out.0, out.0.roots[at], n)
}

/// A state with two more roots.
pub open spec fn beside(t: State, p: u32, q: u32) -> State {
    State { roots: t.roots + seq![p, q], ..t }
}

/// Whether a statement leaves a truth value in the root `at` and goes on; nothing else
/// changes.
pub open spec fn leaves_bool(t: State, out: (State, Flow), at: int, b: bool) -> bool {
    out == (t.with_root(at, t.box_bool(b)), Flow::Next)
}

/// Whether a statement raises the exception for an integer division.
pub open spec fn raises_division(t: State, out: (State, Flow)) -> bool {
    out == (t, Flow::Throw(Value(t.singleton(id::DIVIDEERROR))))
}

/// Whether the text `w` stands in the source at `i`, with a blank behind it.
pub open spec fn written(b: Seq<u8>, i: int, w: Seq<u8>) -> bool {
    &&& 0 <= i
    &&& i + w.len() < b.len()
    &&& forall|j: int| 0 <= j < w.len() ==> b[i + j] == #[trigger] w[j]
    &&& b[i + w.len()] == 32
}

/// The state in which a builtin is applied to two operands.
proof fn lemma_read_two(t: State, base: int, nslots: int, args: Seq<Op>, x: i64, y: i64)
    requires
        args.len() == 2,
        holds_int(t, base, nslots, args[0], x),
        holds_int(t, base, nslots, args[1], y),
    ensures
        ({
            let at = t.roots.len() as int;
            let (s, r) = t.push_frame(2).read_args(base, nslots, args, at, 0);
            let p = s.root_at(at);
            let q = s.root_at(at + 1);
            &&& r == Ok::<(), Value>(())
            &&& s == beside(t, p, q)
            &&& is_int(t, p, x)
            &&& is_int(t, q, y)
            &&& is_int(s, p, x)
            &&& is_int(s, q, y)
        }),
{
    let at = t.roots.len() as int;
    let s0 = t.push_frame(2);
    assert(forall|i: int| 0 <= i < t.roots.len() ==> #[trigger] s0.roots[i] == t.roots[i]);
    let (u0, r0) = s0.read_op(base, nslots, args[0]);
    let p = r0->Ok_0.0;
    let s1 = s0.with_root(at, p);
    assert(forall|i: int| 0 <= i < t.roots.len() ==> #[trigger] s1.roots[i] == t.roots[i]);
    let (u1, r1) = s1.read_op(base, nslots, args[1]);
    let q = r1->Ok_0.0;
    let s2 = s1.with_root(at + 1, q);
    assert(s2.read_args(base, nslots, args, at, 2) == (s2, Ok::<(), Value>(())));
    assert(s1.read_args(base, nslots, args, at, 1) == (s2, Ok::<(), Value>(())));
    assert(s0.read_args(base, nslots, args, at, 0) == (s2, Ok::<(), Value>(())));
    assert(s2.roots =~= t.roots + seq![p, q]);
    assert(s2 =~= beside(t, p, q));
}

/// What a builtin comes to on two integers.
#[verifier::opaque]
pub open spec fn comes_to(
    f: Builtin,
    x: i64,
    y: i64,
    t: State,
    out: (State, Flow),
    at: int,
) -> bool {
    match f {
        Builtin::Add => leaves_int(t, out, at, wrap(x + y)),
        Builtin::Sub => leaves_int(t, out, at, wrap(x - y)),
        Builtin::Mul => leaves_int(t, out, at, wrap(x * y)),
        Builtin::And => leaves_int(t, out, at, x & y),
        Builtin::Or => leaves_int(t, out, at, x | y),
        Builtin::Xor => leaves_int(t, out, at, x ^ y),
        Builtin::Shl => leaves_int(t, out, at, shl(x, y)),
        Builtin::Shr => leaves_int(t, out, at, ashr(x, y)),
        Builtin::Lshr => leaves_int(t, out, at, lshr(x, y)),
        Builtin::IDiv => match sdiv(x, y) {
            Some(n) => leaves_int(t, out, at, n),
            None => raises_division(t, out),
        },
        Builtin::Rem => match srem(x, y) {
            Some(n) => leaves_int(t, out, at, n),
            None => raises_division(t, out),
        },
        Builtin::Slt => leaves_bool(t, out, at, x < y),
        Builtin::Sle => leaves_bool(t, out, at, x <= y),
        Builtin::Eq => leaves_bool(t, out, at, x == y),
        Builtin::Egal => leaves_bool(t, out, at, x == y),
        Builtin::Div => out.1 == (Flow::Float {
            call: FloatCall { op: FloatOp::Div, a: Num::Int(x), b: Num::Int(y) },
            n: 2,
        }),
    }
}

/// A builtin applied to two integers that were read; `t` is the state without them.
#[verifier::rlimit(40)]
pub proof fn lemma_builtin(
    s0: State,
    t: State,
    base: int,
    nslots: int,
    ip: int,
    f: Builtin,
    args: Seq<Op>,
    p: u32,
    q: u32,
    x: i64,
    y: i64,
)
    requires
        args.len() == 2,
        s0.push_frame(2).read_args(base, nslots, args, s0.roots.len() as int, 0) == (
            beside(t, p, q),
            Ok::<(), Value>(()),
        ),
        t.roots.len() == s0.roots.len(),
        is_int(t, p, x),
        is_int(t, q, y),
        boxes_ints(t),
        0 <= base + nslots + ip < t.roots.len(),
    ensures
        comes_to(f, x, y, t, s0.do_call(base, nslots, ip, f, args), base + nslots + ip),
{
    reveal(comes_to);
    reveal(State::do_call);
    reveal(State::apply_builtin);
    let s = beside(t, p, q);
    let n = t.roots.len() as int;
    assert(s.root_at(n) == p && s.root_at(n + 1) == q);
    assert(is_int(s, p, x) && is_int(s, q, y));
    let (s1, a) = s.apply_builtin(f, p, q);
    if f == Builtin::Egal {
        lemma_same_ints(s, p, q, x, y);
    }
    match a {
        Applied::Done(v) => {
            if s1 == s {
                assert(s1.pop_roots(2).roots =~= t.roots);
                assert(s1.pop_roots(2) =~= t);
            }
        },
        Applied::Raise(e) => {
            assert(s1.pop_roots(2).roots =~= t.roots);
            assert(s1.pop_roots(2) =~= t);
        },
        Applied::Float(_) => {},
    }
    lemma_boxed(t, p, q, base + nslots + ip, wrap(x + y));
    lemma_boxed(t, p, q, base + nslots + ip, wrap(x - y));
    lemma_boxed(t, p, q, base + nslots + ip, wrap(x * y));
    lemma_boxed(t, p, q, base + nslots + ip, x & y);
    lemma_boxed(t, p, q, base + nslots + ip, x | y);
    lemma_boxed(t, p, q, base + nslots + ip, x ^ y);
    lemma_boxed(t, p, q, base + nslots + ip, shl(x, y));
    lemma_boxed(t, p, q, base + nslots + ip, ashr(x, y));
    lemma_boxed(t, p, q, base + nslots + ip, lshr(x, y));
    if let Some(n) = sdiv(x, y) {
        lemma_boxed(t, p, q, base + nslots + ip, n);
    }
    if let Some(n) = srem(x, y) {
        lemma_boxed(t, p, q, base + nslots + ip, n);
    }
}

/// A box beside two operands, left as a result.
proof fn lemma_boxed(t: State, p: u32, q: u32, at: int, n: i64)
    requires
        boxes_ints(t),
        0 <= at < t.roots.len(),
    ensures
        ({
            let (s, v) = beside(t, p, q).box_int(n);
            leaves_int(t, (s.pop_roots(2).with_root(at, v), Flow::Next), at, n)
        }),
{
    let b = beside(t, p, q);
    lemma_box(b, n);
}

/// A new box of an integer.
pub proof fn lemma_box(b: State, n: i64)
    requires
        b.size_of(b.builtin(id::INT64)) == 8,
        b.builtin(id::INT64) % 4 == 0,
    ensures
        ({
            let (s, v) = b.box_int(n);
            &&& s.builtins == b.builtins
            &&& s.roots == b.roots
            &&& v != NULL ==> is_int(s, v, n)
        }),
{
    reveal(State::box64);
    let t = b.builtin(id::INT64);
    crate::value::law_unbox_after_box(b, n);
    crate::object::lemma_alloc_object_keeps(b, t, 8);
    crate::object::law_alloc_object(b, t, 8);
}

/// Boxed integers are identical exactly if they are equal.
proof fn lemma_same_ints(s: State, p: u32, q: u32, x: i64, y: i64)
    requires
        is_int(s, p, x),
        is_int(s, q, y),
        boxes_ints(s),
    ensures
        s.egal(p, q, MAX_NESTING as nat) == (x == y),
{
    let a = s.data(p);
    let b = s.data(q);
    let t = s.builtin(id::INT64);
    reveal_with_fuel(State::egal, 2);
    assert(s.egal_unboxed(t, p, q, (MAX_NESTING - 1) as nat) == s.bits_equal(p, q, 8)) by {
        reveal_with_fuel(State::egal_unboxed, 2);
    }
    if s.bits_equal(p, q, 8) {
        assert forall|i: int| 0 <= i < 8 implies a[i] == b[i] by {
            assert(s.byte(p, i) == s.byte(q, i));
        }
        assert(a =~= b);
    }
    if x == y {
        lemma_signed_alike(s.word64(p), s.word64(q));
        assert forall|i: int| 0 <= i < 8 implies #[trigger] s.byte(p, i) == s.byte(q, i) by {
            lemma_word_parts(a, b, 0);
            lemma_word_parts(a, b, 4);
        }
    }
}

/// Patterns of one signed value are the same, and so are their words.
proof fn lemma_signed_alike(a: u64, b: u64)
    requires
        crate::value::signed_of(a) == crate::value::signed_of(b),
    ensures
        a == b,
{
}

/// Equal words have equal bytes.
#[verifier::spinoff_prover]
proof fn lemma_word_parts(a: Seq<u8>, b: Seq<u8>, i: int)
    requires
        word_fits(a, i),
        word_fits(b, i),
        word_at(a, i) == word_at(b, i),
    ensures
        a[i] == b[i] && a[i + 1] == b[i + 1] && a[i + 2] == b[i + 2] && a[i + 3] == b[i + 3],
{
    lemma_four(
        a[i] as int,
        a[i + 1] as int,
        a[i + 2] as int,
        a[i + 3] as int,
        b[i] as int,
        b[i + 1] as int,
        b[i + 2] as int,
        b[i + 3] as int,
    );
}

#[verifier::spinoff_prover]
proof fn lemma_four(a0: int, a1: int, a2: int, a3: int, b0: int, b1: int, b2: int, b3: int)
    requires
        0 <= a0 < 0x100 && 0 <= a1 < 0x100 && 0 <= a2 < 0x100 && 0 <= a3 < 0x100,
        0 <= b0 < 0x100 && 0 <= b1 < 0x100 && 0 <= b2 < 0x100 && 0 <= b3 < 0x100,
        a0 + 0x100 * a1 + 0x1_0000 * a2 + 0x100_0000 * a3 == b0 + 0x100 * b1 + 0x1_0000 * b2
            + 0x100_0000 * b3,
    ensures
        a0 == b0 && a1 == b1 && a2 == b2 && a3 == b3,
{
    let k = (b1 - a1) + 0x100 * (b2 - a2) + 0x1_0000 * (b3 - a3);
    assert(a0 - b0 == 0x100 * k);
    assert(k == 0);
    let n = (b2 - a2) + 0x100 * (b3 - a3);
    assert(a1 - b1 == 0x100 * n);
    assert(n == 0);
}

/// What the operator with the text `w` comes to on the integers `x` and `y`: the
/// statement's outcome `out` in the state `t`, with its result in the root `at`.
pub open spec fn computes(
    w: Seq<u8>,
    x: i64,
    y: i64,
    t: State,
    out: (State, Flow),
    at: int,
) -> bool {
    // Sums, differences and products wrap around.
    &&& w == seq![43u8] ==> leaves_int(t, out, at, wrap(x + y))
    &&& w == seq![45u8] ==> leaves_int(t, out, at, wrap(x - y))
    &&& w == seq![42u8] ==> leaves_int(t, out, at, wrap(x * y))
    // Bits.
    &&& w == seq![38u8] ==> leaves_int(t, out, at, x & y)
    &&& w == seq![124u8] ==> leaves_int(t, out, at, x | y)
    &&& w == seq![0xe2u8, 0x8au8, 0xbbu8] ==> leaves_int(t, out, at, x ^ y)
    // Shifts to the left and to the right, with the sign and without.
    &&& w == seq![60u8, 60u8] ==> leaves_int(t, out, at, shl(x, y))
    &&& w == seq![62u8, 62u8] ==> leaves_int(t, out, at, ashr(x, y))
    &&& w == seq![62u8, 62u8, 62u8] ==> leaves_int(t, out, at, lshr(x, y))
    // The quotient rounded toward zero, and the remainder with the dividend's sign.
    &&& w == seq![0xc3u8, 0xb7u8] ==> if y == 0 || (x == i64::MIN && y == -1) {
        raises_division(t, out)
    } else {
        exists|n: i64| #[trigger] leaves_int(t, out, at, n) && remains(x, y, x - n * y)
    }
    &&& w == seq![37u8] ==> if y == 0 {
        raises_division(t, out)
    } else {
        exists|n: i64, k: int| #[trigger]
            leaves_int(t, out, at, n) && remains(x, y, n as int) && x == #[trigger] times(k, y) + n
    }
    // Division is left to floating-point arithmetic.
    &&& w == seq![47u8] ==> out.1 == (Flow::Float {
        call: FloatCall { op: FloatOp::Div, a: Num::Int(x), b: Num::Int(y) },
        n: 2,
    })
    // Comparisons.
    &&& w == seq![60u8] ==> leaves_bool(t, out, at, x < y)
    &&& w == seq![60u8, 61u8] ==> leaves_bool(t, out, at, x <= y)
    &&& w == seq![62u8] ==> leaves_bool(t, out, at, x > y)
    &&& w == seq![62u8, 61u8] ==> leaves_bool(t, out, at, x >= y)
    &&& w == seq![61u8, 61u8] ==> leaves_bool(t, out, at, x == y)
    &&& w == seq![61u8, 61u8, 61u8] ==> leaves_bool(t, out, at, x == y)
}

/// A multiple of `y`.
pub open spec fn times(k: int, y: i64) -> int {
    k * y
}

/// Whether `r` is what a division of `x` by `y` toward zero leaves: smaller than the
/// divisor, and not of the other sign than the dividend.
pub open spec fn remains(x: i64, y: i64, r: int) -> bool {
    &&& -y < r < y || y < r < -y
    &&& x >= 0 ==> r >= 0
    &&& x <= 0 ==> r <= 0
}

/// How tight the operator with the text `w` binds: comparisons least, then sums, then
/// products, then shifts.
pub open spec fn tightness(w: Seq<u8>) -> Option<int> {
    if w == seq![60u8] || w == seq![60u8, 61u8] || w == seq![62u8] || w == seq![62u8, 61u8] || w
        == seq![61u8, 61u8] || w == seq![61u8, 61u8, 61u8] {
        Some(0)
    } else if w == seq![43u8] || w == seq![45u8] || w == seq![124u8] || w == seq![
        0xe2u8,
        0x8au8,
        0xbbu8,
    ] {
        Some(1)
    } else if w == seq![42u8] || w == seq![47u8] || w == seq![0xc3u8, 0xb7u8] || w == seq![37u8]
        || w == seq![38u8] {
        Some(2)
    } else if w == seq![60u8, 60u8] || w == seq![62u8, 62u8] || w == seq![62u8, 62u8, 62u8] {
        Some(3)
    } else {
        None
    }
}

/// The operator that is read from a text.
pub open spec fn read_op_text(b: Seq<u8>, i: int, k: int, level: int) -> Option<BinOp> {
    match scan(b, i, k) {
        Scan::Token(t, _) => op_at(t, level),
        _ => None,
    }
}

/// Every operator is read from its text, at its own level and at no other.
#[verifier::rlimit(60)]
#[verifier::spinoff_prover]
pub proof fn lemma_read(b: Seq<u8>, i: int, k: int, w: Seq<u8>)
    requires
        written(b, i, w),
        tightness(w) is Some,
    ensures
        ({
            let level = tightness(w)->Some_0;
            let op = read_op_text(b, i, k, level);
            &&& scan(b, i, k) matches Scan::Token(t, j) && j == i + w.len()
            &&& forall|l: int|
                0 <= l < 4 && l != level ==> (#[trigger] read_op_text(b, i, k, l)) is None
            &&& op matches Some(o) && texts_read(w, o)
        }),
{
    assert(w.len() == 1 || w.len() == 2 || w.len() == 3);
    assert(b[i + 0] == w[0]);
    if w.len() > 1 {
        assert(b[i + 1] == w[1]);
    }
    if w.len() > 2 {
        assert(b[i + 2] == w[2]);
    }
}

/// The quotient and the remainder by their properties.
proof fn lemma_division(x: i64, y: i64)
    requires
        y != 0,
    ensures
        !(x == i64::MIN && y == -1) ==> (sdiv(x, y) matches Some(q) && remains(x, y, x - q * y)),
        srem(x, y) matches Some(r) && remains(x, y, r as int) && exists|k: int|
            x == #[trigger] times(k, y) + r,
{
    if x == i64::MIN && y == -1 {
        assert(crate::intrinsics::magnitude(x as int) % 1 == 0);
        assert(x == times(-x, y) + 0);
    } else {
        crate::intrinsics::law_division(x, y);
        let q = sdiv(x, y)->Some_0;
        assert(x == times(q as int, y) + srem(x, y)->Some_0);
    }
}

/// Operators compute what their texts say. Where the text of an operator stands in a
/// source it is read as one operator, at one level of binding. An expression with that
/// operator between two others is lowered to their code and one statement more, whose
/// result it is; and where the operands hold the integers `x` and `y` when it runs, the
/// statement leaves what the operator gives on `x` and `y`.
pub proof fn law_operators_compute(
    b: Seq<u8>,
    i: int,
    k: int,
    w: Seq<u8>,
    fl: Seq<u64>,
    s: State,
    l: LowV,
    ex: Expr,
    ey: Expr,
    t: State,
    base: int,
    nslots: int,
    ip: int,
    stmt: Stmt,
    x: i64,
    y: i64,
)
    requires
        written(b, i, w),
        tightness(w) is Some,
        ({
            let (s1, l1, r1) = expr_code(b, fl, s, l, ex);
            let (s2, l2, r2) = expr_code(b, fl, s1, l1, ey);
            &&& r1 matches Ok(vx) && holds_int(t, base, nslots, vx, x)
            &&& r2 matches Ok(vy) && holds_int(t, base, nslots, vy, y)
        }),
        boxes_ints(t),
        0 <= base + nslots + ip < t.roots.len(),
    ensures
        ({
            let level = tightness(w)->Some_0;
            let (s1, l1, _) = expr_code(b, fl, s, l, ex);
            let (s2, l2, _) = expr_code(b, fl, s1, l1, ey);
            &&& scan(b, i, k) matches Scan::Token(tok, j) && j == i + w.len() && {
                &&& forall|n: int| 0 <= n < 4 && n != level ==> (#[trigger] op_at(tok, n)) is None
                &&& op_at(tok, level) matches Some(op) && {
                    let (s3, l3, r3) = expr_code(
                        b,
                        fl,
                        s,
                        l,
                        Expr::Bin(op, Box::new(ex), Box::new(ey)),
                    );
                    &&& s3 == s2
                    &&& l3.slots == l2.slots
                    &&& l3.code.len() == l2.code.len() + 1
                    &&& l2.code == l3.code.take(l2.code.len() as int)
                    &&& r3 == Ok::<Op, Seq<u8>>(Op::Ssa(l2.code.len() as usize))
                    &&& stmt_view(stmt) == l3.code[l2.code.len() as int] ==> computes(
                        w,
                        x,
                        y,
                        t,
                        t.exec_stmt(base, nslots, ip, stmt),
                        base + nslots + ip,
                    )
                }
            }
        }),
{
    reveal(State::exec_stmt);
    lemma_read(b, i, k, w);
    let level = tightness(w)->Some_0;
    let (s1, l1, r1) = expr_code(b, fl, s, l, ex);
    let (s2, l2, r2) = expr_code(b, fl, s1, l1, ey);
    let vx = r1->Ok_0;
    let vy = r2->Ok_0;
    let tok = scan(b, i, k)->Token_0;
    assert forall|n: int| 0 <= n < 4 && n != level implies (#[trigger] op_at(tok, n)) is None by {
        assert(read_op_text(b, i, k, n) is None);
    }
    let op = op_at(tok, level)->Some_0;
    assert(read_op_text(b, i, k, level) == Some(op));
    let e = Expr::Bin(op, Box::new(ex), Box::new(ey));
    let (s3, l3, r3) = expr_code(b, fl, s, l, e);
    assert(l3.code.take(l2.code.len() as int) =~= l2.code);
    if stmt_view(stmt) == l3.code[l2.code.len() as int] {
        lemma_outcome(w, op, t, base, nslots, ip, stmt, vx, vy, x, y);
    }
}

/// The statement of an operation is the operation on its operands.
proof fn lemma_statement(
    t: State,
    base: int,
    nslots: int,
    ip: int,
    stmt: Stmt,
    f: Builtin,
    args: Seq<Op>,
    a: i64,
    c: i64,
)
    requires
        stmt_view(stmt) == StmtV::Call(f, args),
        args.len() == 2,
        holds_int(t, base, nslots, args[0], a),
        holds_int(t, base, nslots, args[1], c),
        boxes_ints(t),
        0 <= base + nslots + ip < t.roots.len(),
    ensures
        comes_to(f, a, c, t, t.exec_stmt(base, nslots, ip, stmt), base + nslots + ip),
{
    lemma_exec_call(t, base, nslots, ip, stmt, f, args);
    lemma_read_two(t, base, nslots, args, a, c);
    let n = t.roots.len() as int;
    let s = t.push_frame(2).read_args(base, nslots, args, n, 0).0;
    lemma_builtin(t, t, base, nslots, ip, f, args, s.root_at(n), s.root_at(n + 1), a, c);
}

/// A statement with the picture of a call is that call.
pub proof fn lemma_exec_call(
    t: State,
    base: int,
    nslots: int,
    ip: int,
    stmt: Stmt,
    f: Builtin,
    args: Seq<Op>,
)
    requires
        stmt_view(stmt) == StmtV::Call(f, args),
    ensures
        t.exec_stmt(base, nslots, ip, stmt) == t.do_call(base, nslots, ip, f, args),
{
    reveal(State::exec_stmt);
    match stmt {
        Stmt::Call(g, v) => {
            assert(g == f && v@ == args);
        },
        _ => {},
    }
}

/// The outcome of the statement of an operator.
proof fn lemma_outcome(
    w: Seq<u8>,
    op: BinOp,
    t: State,
    base: int,
    nslots: int,
    ip: int,
    stmt: Stmt,
    vx: Op,
    vy: Op,
    x: i64,
    y: i64,
)
    requires
        ({
            let (f, swap) = crate::frontend::operation(op);
            stmt_view(stmt) == StmtV::Call(
                f,
                if swap {
                    seq![vy, vx]
                } else {
                    seq![vx, vy]
                },
            )
        }),
        texts_read(w, op),
        holds_int(t, base, nslots, vx, x),
        holds_int(t, base, nslots, vy, y),
        boxes_ints(t),
        0 <= base + nslots + ip < t.roots.len(),
    ensures
        computes(w, x, y, t, t.exec_stmt(base, nslots, ip, stmt), base + nslots + ip),
{
    let (f, swap) = crate::frontend::operation(op);
    if swap {
        lemma_statement(t, base, nslots, ip, stmt, f, seq![vy, vx], y, x);
    } else {
        lemma_statement(t, base, nslots, ip, stmt, f, seq![vx, vy], x, y);
    }
    lemma_by_text(w, op, t, t.exec_stmt(base, nslots, ip, stmt), base + nslots + ip, x, y);
}

/// Whether an operator is read from its text.
pub open spec fn texts_read(w: Seq<u8>, op: BinOp) -> bool {
    &&& w == seq![43u8] ==> op == BinOp::Add
    &&& w == seq![45u8] ==> op == BinOp::Sub
    &&& w == seq![42u8] ==> op == BinOp::Mul
    &&& w == seq![38u8] ==> op == BinOp::And
    &&& w == seq![124u8] ==> op == BinOp::Or
    &&& w == seq![0xe2u8, 0x8au8, 0xbbu8] ==> op == BinOp::Xor
    &&& w == seq![60u8, 60u8] ==> op == BinOp::Shl
    &&& w == seq![62u8, 62u8] ==> op == BinOp::Shr
    &&& w == seq![62u8, 62u8, 62u8] ==> op == BinOp::Ushr
    &&& w == seq![0xc3u8, 0xb7u8] ==> op == BinOp::IDiv
    &&& w == seq![37u8] ==> op == BinOp::Rem
    &&& w == seq![47u8] ==> op == BinOp::Div
    &&& w == seq![60u8] ==> op == BinOp::Lt
    &&& w == seq![60u8, 61u8] ==> op == BinOp::Le
    &&& w == seq![62u8] ==> op == BinOp::Gt
    &&& w == seq![62u8, 61u8] ==> op == BinOp::Ge
    &&& w == seq![61u8, 61u8] ==> op == BinOp::Eq
    &&& w == seq![61u8, 61u8, 61u8] ==> op == BinOp::Egal
}

/// The outcome of an operator's builtin, by the operator's text.
#[verifier::rlimit(60)]
#[verifier::spinoff_prover]
pub proof fn lemma_by_text(
    w: Seq<u8>,
    op: BinOp,
    t: State,
    out: (State, Flow),
    at: int,
    x: i64,
    y: i64,
)
    requires
        texts_read(w, op),
        ({
            let (f, swap) = crate::frontend::operation(op);
            if swap {
                comes_to(f, y, x, t, out, at)
            } else {
                comes_to(f, x, y, t, out, at)
            }
        }),
    ensures
        computes(w, x, y, t, out, at),
{
    reveal(comes_to);
    if y != 0 {
        lemma_division(x, y);
    }
    if w == seq![0xc3u8, 0xb7u8] && y != 0 && !(x == i64::MIN && y == -1) {
        let n = sdiv(x, y)->Some_0;
        assert(leaves_int(t, out, at, n) && remains(x, y, x - n * y));
    }
    if w == seq![37u8] && y != 0 {
        let n = srem(x, y)->Some_0;
        let k = choose|k: int| x == #[trigger] times(k, y) + n;
        assert(leaves_int(t, out, at, n) && remains(x, y, n as int) && x == times(k, y) + n);
    }
}

} // verus!
