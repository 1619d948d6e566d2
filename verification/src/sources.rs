//! From source text to code: numbers, operators and their grouping.

use vstd::prelude::*;
use crate::bytes::decimal;
use crate::frontend::{block_code, expr_code, operation, stmt_code, LowV};
use crate::ir::{BodyV, Op, StmtV};
use crate::lexer::{
    byte_at, digits_end, digits_value, float_count, is_digit, scan, tokens, Scan, Tok,
};
use crate::operators::{lemma_read, read_op_text, tightness, written};
use crate::parser::{
    fuel_for, op_at, parse_atom, parse_block, parse_expr, parse_fields, parse_level,
    parse_primary, parse_rest, parse_stmt, parse_tokens, skip_seps, tok, BinOp, Block, Expr,
    SrcStmt,
};
use crate::state::State;

verus! {

/// Whether the decimal digits of `n` stand in the source at `i`.
pub open spec fn digits_at(b: Seq<u8>, i: int, n: nat) -> bool {
    &&& 0 <= i
    &&& i + decimal(n).len() <= b.len()
    &&& forall|k: int| 0 <= k < decimal(n).len() ==> b[i + k] == #[trigger] decimal(n)[k]
}

/// The digits of a number are read back as that number.
proof fn lemma_digits(b: Seq<u8>, i: int, n: nat)
    requires
        digits_at(b, i, n),
    ensures
        decimal(n).len() > 0,
        forall|k: int| 0 <= k < decimal(n).len() ==> is_digit(#[trigger] decimal(n)[k]),
        digits_value(b, i, i + decimal(n).len()) == n,
    decreases n,
{
    let d = decimal(n);
    if n < 10 {
        assert(d[0] == (48 + n) as u8);
        assert(b[i + 0] == d[0]);
        assert(digits_value(b, i, i) == 0);
        assert(digits_value(b, i, i + 1) == digits_value(b, i, i + 1 - 1) * 10 + (b[i + 1 - 1] - 48));
    } else {
        let r = decimal(n / 10);
        assert forall|k: int| 0 <= k < r.len() implies b[i + k] == #[trigger] r[k] by {
            assert(d[k] == r[k]);
        }
        lemma_digits(b, i, n / 10);
        let e = i + d.len();
        assert(d.len() == r.len() + 1);
        assert(d[d.len() - 1] == (48 + n % 10) as u8);
        assert(b[i + (d.len() - 1)] == d[d.len() - 1]);
        assert(digits_value(b, i, e) == digits_value(b, i, e - 1) * 10 + (b[e - 1] - 48));
        assert forall|k: int| 0 <= k < d.len() implies is_digit(#[trigger] d[k]) by {
            if k < r.len() {
                assert(d[k] == r[k]);
            }
        }
    }
}

/// Digits end where the next byte is none.
proof fn lemma_digits_end(b: Seq<u8>, i: int, e: int)
    requires
        0 <= i <= e <= b.len(),
        forall|k: int| i <= k < e ==> is_digit(#[trigger] b[k]),
        e < b.len() ==> !is_digit(b[e]),
    ensures
        digits_end(b, i) == e,
    decreases e - i,
{
    if i < e {
        assert(is_digit(b[i]));
        lemma_digits_end(b, i + 1, e);
    }
}

/// The decimal digits of a number, followed by a blank or by the end of the source, are
/// that number.
pub proof fn law_numbers_are_read(b: Seq<u8>, i: int, k: int, n: nat)
    requires
        digits_at(b, i, n),
        n <= i64::MAX,
        i + decimal(n).len() < b.len() ==> b[i + decimal(n).len()] == 32,
    ensures
        scan(b, i, k) == Scan::Token(Tok::Int(n as i64), i + decimal(n).len()),
        i < i + decimal(n).len(),
{
    lemma_digits(b, i, n);
    let d = decimal(n);
    let e = i + d.len();
    assert forall|j: int| i <= j < e implies is_digit(#[trigger] b[j]) by {
        assert(b[i + (j - i)] == d[j - i]);
    }
    lemma_digits_end(b, i, e);
    assert(is_digit(b[i]));
    assert(byte_at(b, i) == b[i]);
}

/// The source of two numbers with an operator between them, set off by blanks.
pub open spec fn binary_source(x: nat, w: Seq<u8>, y: nat) -> Seq<u8> {
    decimal(x) + seq![32u8] + w + seq![32u8] + decimal(y)
}

/// The tokens of two numbers with an operator between them.
#[verifier::rlimit(40)]
proof fn lemma_tokens(x: nat, w: Seq<u8>, y: nat)
    requires
        x <= i64::MAX,
        y <= i64::MAX,
        tightness(w) is Some,
    ensures
        ({
            let b = binary_source(x, w, y);
            let i = (decimal(x).len() + 1) as int;
            &&& written(b, i, w)
            &&& scan(b, i, 0) is Token
            &&& tokens(b, 0, 0) == Ok::<Seq<Tok>, Seq<u8>>(
                seq![
                    Tok::Int(x as i64),
                    scan(b, i, 0)->Token_0,
                    Tok::Int(y as i64),
                    Tok::Eof,
                ],
            )
        }),
{
    let b = binary_source(x, w, y);
    let dx = decimal(x);
    let dy = decimal(y);
    let i = (dx.len() + 1) as int;
    let j = i + w.len();
    let k = j + 1;
    assert(digits_at(b, 0, x));
    assert(b[dx.len() as int] == 32);
    law_numbers_are_read(b, 0, 0, x);
    assert(b[j] == 32);
    assert(written(b, i, w));
    lemma_read(b, i, 0, w);
    let t = scan(b, i, 0)->Token_0;
    assert(float_count(t) == 0) by {
        assert(read_op_text(b, i, 0, tightness(w)->Some_0) is Some);
    }
    assert forall|n: int| 0 <= n < dy.len() implies b[k + n] == #[trigger] dy[n] by {}
    assert(digits_at(b, k, y));
    law_numbers_are_read(b, k, 0, y);
    let end = b.len() as int;
    assert(end == k + dy.len());
    assert(tokens(b, end, 0) == Ok::<Seq<Tok>, Seq<u8>>(seq![Tok::Eof]));
    let ty = Tok::Int(y as i64);
    let tx = Tok::Int(x as i64);
    assert(seq![ty] + seq![Tok::Eof] =~= seq![ty, Tok::Eof]);
    assert(tokens(b, k, 0) == Ok::<Seq<Tok>, Seq<u8>>(seq![ty, Tok::Eof]));
    assert(scan(b, j, 0) == Scan::Skip(j + 1));
    assert(tokens(b, j, 0) == Ok::<Seq<Tok>, Seq<u8>>(seq![ty, Tok::Eof]));
    assert(seq![t] + seq![ty, Tok::Eof] =~= seq![t, ty, Tok::Eof]);
    assert(tokens(b, i, 0) == Ok::<Seq<Tok>, Seq<u8>>(seq![t, ty, Tok::Eof]));
    assert(scan(b, i - 1, 0) == Scan::Skip(i));
    assert(tokens(b, i - 1, 0) == Ok::<Seq<Tok>, Seq<u8>>(seq![t, ty, Tok::Eof]));
    assert(seq![tx] + seq![t, ty, Tok::Eof] =~= seq![tx, t, ty, Tok::Eof]);
}

/// A number at `p`, where no operator that binds as tight as `level` or tighter and no
/// field access follows.
proof fn lemma_number(b: Seq<u8>, ts: Seq<Tok>, p: int, n: i64, level: int, fuel: nat)
    requires
        tok(ts, p) == Tok::Int(n),
        tok(ts, p + 1) != Tok::Dot,
        forall|l: int| level <= l < 4 ==> (#[trigger] op_at(tok(ts, p + 1), l)) is None,
        0 <= level <= 4,
        fuel >= 2 * (4 - level) + 4,
    ensures
        parse_level(b, ts, p, level, fuel) == Ok::<(Expr, int), Seq<u8>>((Expr::Int(n), p + 1)),
    decreases 4 - level,
{
    reveal(parse_level);
    if level >= 4 {
        reveal(parse_atom);
        reveal(parse_primary);
        let f: nat = (fuel - 2) as nat;
        assert(parse_primary(b, ts, p, f) == Ok::<(Expr, int), Seq<u8>>((Expr::Int(n), p + 1)));
        assert(parse_fields(b, ts, Expr::Int(n), p + 1) == Ok::<(Expr, int), Seq<u8>>(
            (Expr::Int(n), p + 1),
        ));
        assert(parse_atom(b, ts, p, (fuel - 1) as nat) == Ok::<(Expr, int), Seq<u8>>(
            (Expr::Int(n), p + 1),
        ));
    } else {
        lemma_number(b, ts, p, n, level + 1, (fuel - 1) as nat);
        reveal(parse_rest);
        assert(op_at(tok(ts, p + 1), level) is None);
        assert(parse_rest(b, ts, Expr::Int(n), p + 1, level, (fuel - 1) as nat) == Ok::<
            (Expr, int),
            Seq<u8>,
        >((Expr::Int(n), p + 1)));
    }
}

/// Two numbers at `p` with an operator between them, where no operator that binds as tight
/// as `level` or tighter follows.
proof fn lemma_binary(
    b: Seq<u8>,
    ts: Seq<Tok>,
    p: int,
    x: i64,
    y: i64,
    op: BinOp,
    at: int,
    level: int,
    fuel: nat,
)
    requires
        tok(ts, p) == Tok::Int(x),
        tok(ts, p + 2) == Tok::Int(y),
        op_at(tok(ts, p + 1), at) == Some(op),
        tok(ts, p + 1) != Tok::Dot,
        tok(ts, p + 3) != Tok::Dot,
        forall|l: int| 0 <= l < 4 && l != at ==> (#[trigger] op_at(tok(ts, p + 1), l)) is None,
        forall|l: int| level <= l < 4 ==> (#[trigger] op_at(tok(ts, p + 3), l)) is None,
        0 <= level <= at < 4,
        fuel >= 2 * (4 - level) + 8,
    ensures
        parse_level(b, ts, p, level, fuel) == Ok::<(Expr, int), Seq<u8>>(
            (Expr::Bin(op, Box::new(Expr::Int(x)), Box::new(Expr::Int(y))), p + 3),
        ),
    decreases at - level,
{
    reveal(parse_level);
    reveal(parse_rest);
    let e = Expr::Bin(op, Box::new(Expr::Int(x)), Box::new(Expr::Int(y)));
    let f: nat = (fuel - 1) as nat;
    if level < at {
        lemma_binary(b, ts, p, x, y, op, at, level + 1, f);
        assert(op_at(tok(ts, p + 3), level) is None);
        assert(parse_rest(b, ts, e, p + 3, level, f) == Ok::<(Expr, int), Seq<u8>>((e, p + 3)));
    } else {
        lemma_number(b, ts, p, x, level + 1, f);
        let g: nat = (f - 1) as nat;
        lemma_number(b, ts, p + 2, y, level + 1, g);
        assert(op_at(tok(ts, p + 3), level) is None);
        assert(parse_rest(b, ts, e, p + 3, level, g) == Ok::<(Expr, int), Seq<u8>>((e, p + 3)));
        assert(parse_rest(b, ts, Expr::Int(x), p + 1, level, f) == Ok::<(Expr, int), Seq<u8>>(
            (e, p + 3),
        ));
    }
}

/// Operators group by how tight they bind, and to the left where they bind alike. In
/// `x OP1 y OP2 z`, where the second operator binds tighter than the first it takes its
/// two neighbours; otherwise the first does.
#[verifier::rlimit(40)]
pub proof fn law_operators_group(
    b: Seq<u8>,
    ts: Seq<Tok>,
    p: int,
    x: i64,
    y: i64,
    z: i64,
    op1: BinOp,
    at1: int,
    op2: BinOp,
    at2: int,
    fuel: nat,
)
    requires
        tok(ts, p) == Tok::Int(x),
        tok(ts, p + 2) == Tok::Int(y),
        tok(ts, p + 4) == Tok::Int(z),
        tok(ts, p + 5) == Tok::Eof,
        op_at(tok(ts, p + 1), at1) == Some(op1),
        op_at(tok(ts, p + 3), at2) == Some(op2),
        forall|l: int| 0 <= l < 4 && l != at1 ==> (#[trigger] op_at(tok(ts, p + 1), l)) is None,
        forall|l: int| 0 <= l < 4 && l != at2 ==> (#[trigger] op_at(tok(ts, p + 3), l)) is None,
        0 <= at1 < 4,
        0 <= at2 < 4,
        fuel >= 24,
    ensures
        ({
            let (ex, ey, ez) = (
                Box::new(Expr::Int(x)),
                Box::new(Expr::Int(y)),
                Box::new(Expr::Int(z)),
            );
            parse_expr(b, ts, p, fuel) == Ok::<(Expr, int), Seq<u8>>(
                (
                    if at2 > at1 {
                        Expr::Bin(op1, ex, Box::new(Expr::Bin(op2, ey, ez)))
                    } else {
                        Expr::Bin(op2, Box::new(Expr::Bin(op1, ex, ey)), ez)
                    },
                    p + 5,
                ),
            )
        }),
{
    lemma_group(b, ts, p, x, y, z, op1, at1, op2, at2, 0, fuel);
}

#[verifier::rlimit(40)]
proof fn lemma_group(
    b: Seq<u8>,
    ts: Seq<Tok>,
    p: int,
    x: i64,
    y: i64,
    z: i64,
    op1: BinOp,
    at1: int,
    op2: BinOp,
    at2: int,
    level: int,
    fuel: nat,
)
    requires
        tok(ts, p) == Tok::Int(x),
        tok(ts, p + 2) == Tok::Int(y),
        tok(ts, p + 4) == Tok::Int(z),
        tok(ts, p + 5) == Tok::Eof,
        op_at(tok(ts, p + 1), at1) == Some(op1),
        op_at(tok(ts, p + 3), at2) == Some(op2),
        forall|l: int| 0 <= l < 4 && l != at1 ==> (#[trigger] op_at(tok(ts, p + 1), l)) is None,
        forall|l: int| 0 <= l < 4 && l != at2 ==> (#[trigger] op_at(tok(ts, p + 3), l)) is None,
        0 <= level <= at1 < 4,
        level <= at2 < 4,
        fuel >= 2 * (4 - level) + 14,
    ensures
        ({
            let (ex, ey, ez) = (
                Box::new(Expr::Int(x)),
                Box::new(Expr::Int(y)),
                Box::new(Expr::Int(z)),
            );
            parse_level(b, ts, p, level, fuel) == Ok::<(Expr, int), Seq<u8>>(
                (
                    if at2 > at1 {
                        Expr::Bin(op1, ex, Box::new(Expr::Bin(op2, ey, ez)))
                    } else {
                        Expr::Bin(op2, Box::new(Expr::Bin(op1, ex, ey)), ez)
                    },
                    p + 5,
                ),
            )
        }),
    decreases 4 - level,
{
    reveal(parse_level);
    reveal(parse_rest);
    let (ex, ey, ez) = (Box::new(Expr::Int(x)), Box::new(Expr::Int(y)), Box::new(Expr::Int(z)));
    let e = if at2 > at1 {
        Expr::Bin(op1, ex, Box::new(Expr::Bin(op2, ey, ez)))
    } else {
        Expr::Bin(op2, Box::new(Expr::Bin(op1, ex, ey)), ez)
    };
    let f: nat = (fuel - 1) as nat;
    let g: nat = (f - 1) as nat;
    let h: nat = (g - 1) as nat;
    assert(tok(ts, p + 1) != Tok::Dot && tok(ts, p + 3) != Tok::Dot) by {
        if tok(ts, p + 1) == Tok::Dot {
            assert(op_at(Tok::Dot, at1) is None);
        }
        if tok(ts, p + 3) == Tok::Dot {
            assert(op_at(Tok::Dot, at2) is None);
        }
    }
    assert(forall|l: int| (#[trigger] op_at(tok(ts, p + 5), l)) is None);
    assert(parse_rest(b, ts, e, p + 5, level, f) == Ok::<(Expr, int), Seq<u8>>((e, p + 5)));
    assert(parse_rest(b, ts, e, p + 5, level, g) == Ok::<(Expr, int), Seq<u8>>((e, p + 5)));
    assert(parse_rest(b, ts, e, p + 5, level, h) == Ok::<(Expr, int), Seq<u8>>((e, p + 5)));
    if level < at1 && level < at2 {
        lemma_group(b, ts, p, x, y, z, op1, at1, op2, at2, level + 1, f);
    } else if at2 > at1 {
        lemma_number(b, ts, p, x, level + 1, f);
        lemma_binary(b, ts, p + 2, y, z, op2, at2, level + 1, g);
        assert(parse_rest(b, ts, Expr::Int(x), p + 1, level, f) == Ok::<(Expr, int), Seq<u8>>(
            (e, p + 5),
        ));
    } else if at1 > at2 {
        lemma_binary(b, ts, p, x, y, op1, at1, level + 1, f);
        lemma_number(b, ts, p + 4, z, level + 1, g);
        let first = Expr::Bin(op1, ex, ey);
        assert(parse_rest(b, ts, first, p + 3, level, f) == Ok::<(Expr, int), Seq<u8>>(
            (e, p + 5),
        ));
    } else {
        lemma_number(b, ts, p, x, level + 1, f);
        lemma_number(b, ts, p + 2, y, level + 1, g);
        lemma_number(b, ts, p + 4, z, level + 1, h);
        let first = Expr::Bin(op1, ex, ey);
        assert(parse_rest(b, ts, first, p + 3, level, g) == Ok::<(Expr, int), Seq<u8>>(
            (e, p + 5),
        ));
        assert(parse_rest(b, ts, Expr::Int(x), p + 1, level, f) == Ok::<(Expr, int), Seq<u8>>(
            (e, p + 5),
        ));
    }
}

/// The program of two numbers with an operator between them.
#[verifier::rlimit(40)]
proof fn lemma_program(b: Seq<u8>, ts: Seq<Tok>, x: i64, y: i64, op: BinOp, at: int)
    requires
        ts.len() == 4,
        ts[0] == Tok::Int(x),
        ts[2] == Tok::Int(y),
        ts[3] == Tok::Eof,
        op_at(ts[1], at) == Some(op),
        ts[1] != Tok::Dot,
        forall|l: int| 0 <= l < 4 && l != at ==> (#[trigger] op_at(ts[1], l)) is None,
        0 <= at < 4,
    ensures
        parse_tokens(b, ts) == Ok::<Block, Seq<u8>>(
            Block::Snoc(
                Box::new(Block::Nil),
                Box::new(
                    SrcStmt::Expr(Expr::Bin(op, Box::new(Expr::Int(x)), Box::new(Expr::Int(y)))),
                ),
            ),
        ),
{
    let e = Expr::Bin(op, Box::new(Expr::Int(x)), Box::new(Expr::Int(y)));
    let fuel = fuel_for(4);
    let f: nat = (fuel - 1) as nat;
    let g: nat = (f - 1) as nat;
    assert(forall|l: int| (#[trigger] op_at(Tok::Eof, l)) is None);
    assert(tok(ts, 3) == Tok::Eof && tok(ts, 1) == ts[1] && tok(ts, 0) == ts[0] && tok(ts, 2)
        == ts[2]);
    lemma_binary(b, ts, 0, x, y, op, at, 0, g);
    reveal(parse_stmt);
    assert(parse_stmt(b, ts, 0, f) == Ok::<(SrcStmt, int), Seq<u8>>((SrcStmt::Expr(e), 3)));
    reveal(parse_block);
    let done = Block::Snoc(Box::new(Block::Nil), Box::new(SrcStmt::Expr(e)));
    assert(skip_seps(ts, 3) == 3);
    assert(skip_seps(ts, 0) == 0);
    assert(parse_block(b, ts, done, 3, f) == Ok::<(Block, int), Seq<u8>>((done, 3)));
    assert(parse_block(b, ts, Block::Nil, 0, fuel) == Ok::<(Block, int), Seq<u8>>((done, 3)));
}

/// A source that is two numbers with an operator between them is lowered to two
/// statements: the operation on the two numbers, in the order in which they stand unless
/// the operator is lowered to another one with its operands exchanged, and the return of
/// its result.
pub proof fn lemma_lowered(s: State, fl: Seq<u64>, x: nat, w: Seq<u8>, y: nat)
    requires
        x <= i64::MAX,
        y <= i64::MAX,
        tightness(w) is Some,
    ensures
        ({
            let b = binary_source(x, w, y);
            let i = (decimal(x).len() + 1) as int;
            let op = read_op_text(b, i, 0, tightness(w)->Some_0);
            let (f, swap) = operation(op->Some_0);
            let (vx, vy) = (Op::Int(x as i64), Op::Int(y as i64));
            &&& written(b, i, w)
            &&& op is Some
            &&& s.lower_source(b, fl) == (
                s,
                Ok::<BodyV, Seq<u8>>(
                    BodyV {
                        nslots: 0,
                        code: seq![
                            StmtV::Call(
                                f,
                                if swap {
                                    seq![vy, vx]
                                } else {
                                    seq![vx, vy]
                                },
                            ),
                            StmtV::Return(Op::Ssa(0)),
                        ],
                    },
                ),
            )
        }),
{
    let b = binary_source(x, w, y);
    let i = (decimal(x).len() + 1) as int;
    lemma_tokens(x, w, y);
    lemma_read(b, i, 0, w);
    let at = tightness(w)->Some_0;
    let t = scan(b, i, 0)->Token_0;
    let op = op_at(t, at)->Some_0;
    assert(read_op_text(b, i, 0, at) == Some(op));
    assert forall|l: int| 0 <= l < 4 && l != at implies (#[trigger] op_at(t, l)) is None by {
        assert(read_op_text(b, i, 0, l) is None);
    }
    let ts = seq![Tok::Int(x as i64), t, Tok::Int(y as i64), Tok::Eof];
    if t == Tok::Dot {
        assert(op_at(Tok::Dot, at) is None);
    }
    lemma_program(b, ts, x as i64, y as i64, op, at);
    let ex = Expr::Int(x as i64);
    let ey = Expr::Int(y as i64);
    let e = Expr::Bin(op, Box::new(ex), Box::new(ey));
    let l = LowV { code: Seq::empty(), slots: Seq::empty() };
    let (f, swap) = operation(op);
    let (vx, vy) = (Op::Int(x as i64), Op::Int(y as i64));
    let args = if swap {
        seq![vy, vx]
    } else {
        seq![vx, vy]
    };
    assert(expr_code(b, fl, s, l, ex) == (s, l, Ok::<Op, Seq<u8>>(vx)));
    assert(expr_code(b, fl, s, l, ey) == (s, l, Ok::<Op, Seq<u8>>(vy)));
    let l1 = l.emit(StmtV::Call(f, args)).0;
    assert(expr_code(b, fl, s, l, e) == (s, l1, Ok::<Op, Seq<u8>>(Op::Ssa(0))));
    assert(stmt_code(b, fl, s, l, SrcStmt::Expr(e)) == (
        s,
        l1,
        Ok::<Option<Op>, Seq<u8>>(Some(Op::Ssa(0))),
    ));
    let p = Block::Snoc(Box::new(Block::Nil), Box::new(SrcStmt::Expr(e)));
    assert(block_code(b, fl, s, l, Block::Nil) == (s, l, Ok::<Option<Op>, Seq<u8>>(None)));
    assert(block_code(b, fl, s, l, p) == (s, l1, Ok::<Option<Op>, Seq<u8>>(Some(Op::Ssa(0)))));
    assert(l1.code.push(StmtV::Return(Op::Ssa(0))) =~= seq![
        StmtV::Call(f, args),
        StmtV::Return(Op::Ssa(0)),
    ]);
}

} // verus!
