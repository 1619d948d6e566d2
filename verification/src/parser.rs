//! The parser: tokens to a syntax tree.
//!
//! Comparisons bind least, and sums, products and shifts bind tighter in this
//! order; the bitwise or and exclusive or are sums, the bitwise and is a product.
//! All binary operators group to the left. A tree refers to identifiers by their
//! place in the source.

use vstd::prelude::*;
use crate::bytes::{push_bytes, push_text, text, utf8};
use crate::lexer::{describe, token_text, Tok};

verus! {

#[derive(Clone, Copy, PartialEq, Eq, Structural)]
pub enum BinOp {
    Add,
    Sub,
    Mul,
    Div,
    IDiv,
    Rem,
    And,
    Or,
    Xor,
    Shl,
    Shr,
    Ushr,
    Lt,
    Le,
    Gt,
    Ge,
    Eq,
    Egal,
}

/// The place of an identifier.
#[derive(Clone, Copy, PartialEq, Eq, Structural)]
pub struct Name {
    pub start: usize,
    pub end: usize,
}

pub enum Expr {
    Int(i64),
    /// The floating-point literal with this number.
    Float(usize),
    Var(Name),
    Bin(BinOp, Box<Expr>, Box<Expr>),
    /// A constructor call.
    Call(Name, Box<Args>),
    /// A field access.
    Field(Box<Expr>, Name),
}

/// A list of arguments, the last one outermost.
pub enum Args {
    Nil,
    Snoc(Box<Args>, Expr),
}

/// A list of field declarations, the last one outermost.
pub enum Fields {
    Nil,
    Snoc(Box<Fields>, Name, Option<Name>),
}

pub enum SrcStmt {
    Assign(Name, Expr),
    /// An assignment to a field of a variable.
    FieldAssign(Name, Name, Expr),
    Expr(Expr),
    If(Expr, Block, Block),
    While(Expr, Block),
    /// A struct definition: its name, whether it is mutable, and its fields.
    StructDef(Name, bool, Fields),
}

/// A list of statements, the last one outermost.
pub enum Block {
    Nil,
    Snoc(Box<Block>, Box<SrcStmt>),
}

/// The picture of what was read.
pub open spec fn read_of<T>(r: Result<(T, usize), Vec<u8>>) -> Result<(T, int), Seq<u8>> {
    match r {
        Ok((x, p)) => Ok((x, p as int)),
        Err(m) => Err(m@),
    }
}

/// The token at `p`.
pub open spec fn tok(ts: Seq<Tok>, p: int) -> Tok {
    if 0 <= p < ts.len() {
        ts[p]
    } else {
        Tok::Eof
    }
}

/// The binary operator that `t` is at the given level.
pub open spec fn op_at(t: Tok, level: int) -> Option<BinOp> {
    if level == 0 {
        match t {
            Tok::Lt => Some(BinOp::Lt),
            Tok::Le => Some(BinOp::Le),
            Tok::Gt => Some(BinOp::Gt),
            Tok::Ge => Some(BinOp::Ge),
            Tok::EqEq => Some(BinOp::Eq),
            Tok::EqEqEq => Some(BinOp::Egal),
            _ => None,
        }
    } else if level == 1 {
        match t {
            Tok::Plus => Some(BinOp::Add),
            Tok::Minus => Some(BinOp::Sub),
            Tok::Pipe => Some(BinOp::Or),
            Tok::Veebar => Some(BinOp::Xor),
            _ => None,
        }
    } else if level == 2 {
        match t {
            Tok::Star => Some(BinOp::Mul),
            Tok::Slash => Some(BinOp::Div),
            Tok::IDiv => Some(BinOp::IDiv),
            Tok::Percent => Some(BinOp::Rem),
            Tok::Amp => Some(BinOp::And),
            _ => None,
        }
    } else {
        match t {
            Tok::Shl => Some(BinOp::Shl),
            Tok::Shr => Some(BinOp::Shr),
            Tok::Ushr => Some(BinOp::Ushr),
            _ => None,
        }
    }
}

/// The message when the nesting exceeds the fuel.
pub open spec fn too_deep() -> Seq<u8> {
    utf8("nested too deeply")
}

/// The message when another token is expected.
pub open spec fn expected_text(b: Seq<u8>, want: Tok, found: Tok) -> Seq<u8> {
    utf8("expected ") + token_text(b, want) + utf8(", found ") + token_text(b, found)
}

/// The message when a token does not fit, after a phrase.
pub open spec fn found_text(b: Seq<u8>, phrase: &str, found: Tok) -> Seq<u8> {
    utf8(phrase) + token_text(b, found)
}

/// The expression at `p` whose operators bind at least as tight as `level`.
#[verifier::opaque]
pub open spec fn parse_level(
    b: Seq<u8>,
    ts: Seq<Tok>,
    p: int,
    level: int,
    fuel: nat,
) -> Result<(Expr, int), Seq<u8>>
    decreases fuel,
{
    if fuel == 0 {
        Err(too_deep())
    } else if level >= 4 {
        parse_atom(b, ts, p, (fuel - 1) as nat)
    } else {
        match parse_level(b, ts, p, level + 1, (fuel - 1) as nat) {
            Ok((lhs, p1)) => parse_rest(b, ts, lhs, p1, level, (fuel - 1) as nat),
            Err(m) => Err(m),
        }
    }
}

/// The expression that begins with `lhs` and goes on at `p` with operators of
/// `level`.
#[verifier::opaque]
pub open spec fn parse_rest(
    b: Seq<u8>,
    ts: Seq<Tok>,
    lhs: Expr,
    p: int,
    level: int,
    fuel: nat,
) -> Result<(Expr, int), Seq<u8>>
    decreases fuel,
{
    match op_at(tok(ts, p), level) {
        None => Ok((lhs, p)),
        Some(op) => if fuel == 0 {
            Err(too_deep())
        } else {
            match parse_level(b, ts, p + 1, level + 1, (fuel - 1) as nat) {
                Ok((rhs, p1)) => parse_rest(
                    b,
                    ts,
                    Expr::Bin(op, Box::new(lhs), Box::new(rhs)),
                    p1,
                    level,
                    (fuel - 1) as nat,
                ),
                Err(m) => Err(m),
            }
        },
    }
}

/// The primary expression at `p` with its field accesses.
#[verifier::opaque]
pub open spec fn parse_atom(b: Seq<u8>, ts: Seq<Tok>, p: int, fuel: nat) -> Result<
    (Expr, int),
    Seq<u8>,
>
    decreases fuel,
{
    if fuel == 0 {
        Err(too_deep())
    } else {
        match parse_primary(b, ts, p, (fuel - 1) as nat) {
            Ok((e, p1)) => parse_fields(b, ts, e, p1),
            Err(m) => Err(m),
        }
    }
}

/// The field accesses of `e` at `p`.
pub open spec fn parse_fields(b: Seq<u8>, ts: Seq<Tok>, e: Expr, p: int) -> Result<
    (Expr, int),
    Seq<u8>,
>
    decreases ts.len() - p,
{
    if tok(ts, p) != Tok::Dot {
        Ok((e, p))
    } else {
        match tok(ts, p + 1) {
            Tok::Ident(start, end) => parse_fields(
                b,
                ts,
                Expr::Field(Box::new(e), Name { start, end }),
                p + 2,
            ),
            t => Err(found_text(b, "expected field name after `.`, found ", t)),
        }
    }
}

/// The primary expression at `p`.
#[verifier::opaque]
pub open spec fn parse_primary(b: Seq<u8>, ts: Seq<Tok>, p: int, fuel: nat) -> Result<
    (Expr, int),
    Seq<u8>,
>
    decreases fuel,
{
    if fuel == 0 {
        Err(too_deep())
    } else {
        match tok(ts, p) {
            Tok::Int(n) => Ok((Expr::Int(n), p + 1)),
            Tok::Float(_, _, k) => Ok((Expr::Float(k), p + 1)),
            Tok::Ident(start, end) => {
                let name = Name { start, end };
                if tok(ts, p + 1) != Tok::LParen {
                    Ok((Expr::Var(name), p + 1))
                } else if tok(ts, p + 2) == Tok::RParen {
                    Ok((Expr::Call(name, Box::new(Args::Nil)), p + 3))
                } else {
                    match parse_args(b, ts, Args::Nil, p + 2, (fuel - 1) as nat) {
                        Ok((args, p1)) => Ok((Expr::Call(name, Box::new(args)), p1)),
                        Err(m) => Err(m),
                    }
                }
            },
            Tok::LParen => match parse_level(b, ts, p + 1, 0, (fuel - 1) as nat) {
                Ok((e, p1)) => if tok(ts, p1) == Tok::RParen {
                    Ok((e, p1 + 1))
                } else {
                    Err(expected_text(b, Tok::RParen, tok(ts, p1)))
                },
                Err(m) => Err(m),
            },
            Tok::Minus => match parse_atom(b, ts, p + 1, (fuel - 1) as nat) {
                Ok((e, p1)) => Ok(
                    (Expr::Bin(BinOp::Sub, Box::new(Expr::Int(0)), Box::new(e)), p1),
                ),
                Err(m) => Err(m),
            },
            t => Err(found_text(b, "unexpected token ", t)),
        }
    }
}

/// The arguments at `p` up to the closing parenthesis, after those in `done`.
#[verifier::opaque]
pub open spec fn parse_args(b: Seq<u8>, ts: Seq<Tok>, done: Args, p: int, fuel: nat) -> Result<
    (Args, int),
    Seq<u8>,
>
    decreases fuel,
{
    if fuel == 0 {
        Err(too_deep())
    } else {
        match parse_level(b, ts, p, 0, (fuel - 1) as nat) {
            Err(m) => Err(m),
            Ok((e, p1)) => {
                let args = Args::Snoc(Box::new(done), e);
                match tok(ts, p1) {
                    Tok::Comma => parse_args(b, ts, args, p1 + 1, (fuel - 1) as nat),
                    Tok::RParen => Ok((args, p1 + 1)),
                    t => Err(found_text(b, "expected `,` or `)`, found ", t)),
                }
            },
        }
    }
}

/// The first place from `p` on that does not hold a separator.
pub open spec fn skip_seps(ts: Seq<Tok>, p: int) -> int
    decreases ts.len() - p,
{
    if 0 <= p < ts.len() && ts[p] == Tok::Sep {
        skip_seps(ts, p + 1)
    } else {
        p
    }
}

/// Whether `t` ends a block.
pub open spec fn ends_block(t: Tok) -> bool {
    t == Tok::End || t == Tok::Else || t == Tok::Elseif || t == Tok::Eof
}

/// The statements at `p` up to the end of the block, after those in `done`.
#[verifier::opaque]
pub open spec fn parse_block(
    b: Seq<u8>,
    ts: Seq<Tok>,
    done: Block,
    p0: int,
    fuel: nat,
) -> Result<(Block, int), Seq<u8>>
    decreases fuel,
{
    let p = skip_seps(ts, p0);
    if ends_block(tok(ts, p)) {
        Ok((done, p))
    } else if fuel == 0 {
        Err(too_deep())
    } else {
        match parse_stmt(b, ts, p, (fuel - 1) as nat) {
            Ok((s, p1)) => parse_block(
                b,
                ts,
                Block::Snoc(Box::new(done), Box::new(s)),
                p1,
                (fuel - 1) as nat,
            ),
            Err(m) => Err(m),
        }
    }
}

/// Whether an assignment to a field of a variable begins at `p`.
pub open spec fn is_field_assign(ts: Seq<Tok>, p: int) -> bool {
    &&& tok(ts, p) is Ident
    &&& tok(ts, p + 1) == Tok::Dot
    &&& tok(ts, p + 2) is Ident
    &&& tok(ts, p + 3) == Tok::Assign
}

/// The name at `p`.
pub open spec fn name_at(ts: Seq<Tok>, p: int) -> Name {
    match tok(ts, p) {
        Tok::Ident(start, end) => Name { start, end },
        _ => Name { start: 0, end: 0 },
    }
}

/// The expression at `p` with all fuel that is left.
pub open spec fn parse_expr(b: Seq<u8>, ts: Seq<Tok>, p: int, fuel: nat) -> Result<
    (Expr, int),
    Seq<u8>,
> {
    parse_level(b, ts, p, 0, fuel)
}

/// The statement at `p`.
#[verifier::opaque]
pub open spec fn parse_stmt(b: Seq<u8>, ts: Seq<Tok>, p: int, fuel: nat) -> Result<
    (SrcStmt, int),
    Seq<u8>,
>
    decreases fuel,
{
    if fuel == 0 {
        Err(too_deep())
    } else if tok(ts, p) == Tok::Struct {
        parse_struct(b, ts, p + 1, false)
    } else if tok(ts, p) == Tok::Mutable {
        if tok(ts, p + 1) == Tok::Struct {
            parse_struct(b, ts, p + 2, true)
        } else {
            Err(expected_text(b, Tok::Struct, tok(ts, p + 1)))
        }
    } else if is_field_assign(ts, p) {
        match parse_expr(b, ts, p + 4, (fuel - 1) as nat) {
            Ok((e, p1)) => Ok((SrcStmt::FieldAssign(name_at(ts, p), name_at(ts, p + 2), e), p1)),
            Err(m) => Err(m),
        }
    } else if tok(ts, p) == Tok::While {
        match parse_expr(b, ts, p + 1, (fuel - 1) as nat) {
            Err(m) => Err(m),
            Ok((cond, p1)) => match parse_block(b, ts, Block::Nil, p1, (fuel - 1) as nat) {
                Err(m) => Err(m),
                Ok((body, p2)) => if tok(ts, p2) == Tok::End {
                    Ok((SrcStmt::While(cond, body), p2 + 1))
                } else {
                    Err(expected_text(b, Tok::End, tok(ts, p2)))
                },
            },
        }
    } else if tok(ts, p) == Tok::If {
        parse_if(b, ts, p + 1, (fuel - 1) as nat)
    } else if tok(ts, p) is Ident && tok(ts, p + 1) == Tok::Assign {
        match parse_expr(b, ts, p + 2, (fuel - 1) as nat) {
            Ok((e, p1)) => Ok((SrcStmt::Assign(name_at(ts, p), e), p1)),
            Err(m) => Err(m),
        }
    } else {
        match parse_expr(b, ts, p, (fuel - 1) as nat) {
            Ok((e, p1)) => Ok((SrcStmt::Expr(e), p1)),
            Err(m) => Err(m),
        }
    }
}

/// The conditional at `p`, after its keyword.
#[verifier::opaque]
pub open spec fn parse_if(b: Seq<u8>, ts: Seq<Tok>, p: int, fuel: nat) -> Result<
    (SrcStmt, int),
    Seq<u8>,
>
    decreases fuel,
{
    if fuel == 0 {
        Err(too_deep())
    } else {
        match parse_expr(b, ts, p, (fuel - 1) as nat) {
            Err(m) => Err(m),
            Ok((cond, p1)) => match parse_block(b, ts, Block::Nil, p1, (fuel - 1) as nat) {
                Err(m) => Err(m),
                Ok((yes, p2)) => match tok(ts, p2) {
                    Tok::End => Ok((SrcStmt::If(cond, yes, Block::Nil), p2 + 1)),
                    Tok::Else => match parse_block(b, ts, Block::Nil, p2 + 1, (fuel - 1) as nat) {
                        Err(m) => Err(m),
                        Ok((no, p3)) => if tok(ts, p3) == Tok::End {
                            Ok((SrcStmt::If(cond, yes, no), p3 + 1))
                        } else {
                            Err(expected_text(b, Tok::End, tok(ts, p3)))
                        },
                    },
                    Tok::Elseif => match parse_if(b, ts, p2 + 1, (fuel - 1) as nat) {
                        Err(m) => Err(m),
                        Ok((inner, p3)) => Ok(
                            (
                                SrcStmt::If(
                                    cond,
                                    yes,
                                    Block::Snoc(Box::new(Block::Nil), Box::new(inner)),
                                ),
                                p3,
                            ),
                        ),
                    },
                    t => Err(found_text(b, "expected else/elseif/end, found ", t)),
                },
            },
        }
    }
}

/// The struct definition at `p`, after its keywords.
pub open spec fn parse_struct(b: Seq<u8>, ts: Seq<Tok>, p: int, mutabl: bool) -> Result<
    (SrcStmt, int),
    Seq<u8>,
> {
    match tok(ts, p) {
        Tok::Ident(start, end) => match parse_decls(b, ts, Fields::Nil, p + 1) {
            Ok((fields, p1)) => Ok(
                (SrcStmt::StructDef(Name { start, end }, mutabl, fields), p1),
            ),
            Err(m) => Err(m),
        },
        t => Err(found_text(b, "expected struct name, found ", t)),
    }
}

/// The field declarations at `p` up to the end, after those in `done`.
pub open spec fn parse_decls(b: Seq<u8>, ts: Seq<Tok>, done: Fields, p0: int) -> Result<
    (Fields, int),
    Seq<u8>,
>
    decreases ts.len() - p0,
{
    let p = skip_seps(ts, p0);
    if p < p0 || p >= ts.len() {
        Err(found_text(b, "expected field or `end` in struct, found ", Tok::Eof))
    } else {
        match tok(ts, p) {
            Tok::End => Ok((done, p + 1)),
            Tok::Ident(start, end) => {
                let name = Name { start, end };
                if tok(ts, p + 1) == Tok::ColonColon {
                    match tok(ts, p + 2) {
                        Tok::Ident(s2, e2) => parse_decls(
                            b,
                            ts,
                            Fields::Snoc(
                                Box::new(done),
                                name,
                                Some(Name { start: s2, end: e2 }),
                            ),
                            p + 3,
                        ),
                        t => Err(found_text(b, "expected field type, found ", t)),
                    }
                } else {
                    parse_decls(b, ts, Fields::Snoc(Box::new(done), name, None), p + 1)
                }
            },
            t => Err(found_text(b, "expected field or `end` in struct, found ", t)),
        }
    }
}

/// The fuel for a source of `n` tokens.
pub open spec fn fuel_for(n: int) -> nat {
    (16 * n + 64) as nat
}

/// The program that the tokens stand for.
pub open spec fn parse_tokens(b: Seq<u8>, ts: Seq<Tok>) -> Result<Block, Seq<u8>> {
    match parse_block(b, ts, Block::Nil, 0, fuel_for(ts.len() as int)) {
        Err(m) => Err(m),
        Ok((block, p)) => if tok(ts, p) == Tok::Eof {
            Ok(block)
        } else {
            Err(found_text(b, "unexpected ", tok(ts, p)))
        },
    }
}

/// The token at `p`.
fn at(ts: &Vec<Tok>, p: usize) -> (r: Tok)
    ensures
        r == tok(ts@, p as int),
        r != Tok::Eof ==> p < ts.len(),
{
    if p < ts.len() {
        ts[p]
    } else {
        Tok::Eof
    }
}

/// The token `k` places past `p`, for a small `k`.
fn ahead(ts: &Vec<Tok>, p: usize, k: usize) -> (r: Tok)
    requires
        k < 8,
    ensures
        r == tok(ts@, p + k),
        r != Tok::Eof ==> p + k < ts.len(),
{
    if p < ts.len() && k < ts.len() - p {
        ts[p + k]
    } else {
        Tok::Eof
    }
}

/// The message when another token is expected.
fn expected(b: &[u8], want: Tok, found: Tok) -> (r: Vec<u8>)
    ensures
        r@ == expected_text(b@, want, found),
{
    let mut m: Vec<u8> = text("expected ");
    let w: Vec<u8> = describe(b, want);
    push_bytes(&mut m, w.as_slice());
    push_text(&mut m, ", found ");
    let f: Vec<u8> = describe(b, found);
    push_bytes(&mut m, f.as_slice());
    m
}

/// The message when a token does not fit.
fn not_this(b: &[u8], phrase: &str, found: Tok) -> (r: Vec<u8>)
    ensures
        r@ == found_text(b@, phrase, found),
{
    let mut m: Vec<u8> = text(phrase);
    let f: Vec<u8> = describe(b, found);
    push_bytes(&mut m, f.as_slice());
    m
}

/// The binary operator that `t` is at the given level.
fn operator(t: Tok, level: u8) -> (r: Option<BinOp>)
    ensures
        r == op_at(t, level as int),
{
    if level == 0 {
        match t {
            Tok::Lt => Some(BinOp::Lt),
            Tok::Le => Some(BinOp::Le),
            Tok::Gt => Some(BinOp::Gt),
            Tok::Ge => Some(BinOp::Ge),
            Tok::EqEq => Some(BinOp::Eq),
            Tok::EqEqEq => Some(BinOp::Egal),
            _ => None,
        }
    } else if level == 1 {
        match t {
            Tok::Plus => Some(BinOp::Add),
            Tok::Minus => Some(BinOp::Sub),
            Tok::Pipe => Some(BinOp::Or),
            Tok::Veebar => Some(BinOp::Xor),
            _ => None,
        }
    } else if level == 2 {
        match t {
            Tok::Star => Some(BinOp::Mul),
            Tok::Slash => Some(BinOp::Div),
            Tok::IDiv => Some(BinOp::IDiv),
            Tok::Percent => Some(BinOp::Rem),
            Tok::Amp => Some(BinOp::And),
            _ => None,
        }
    } else {
        match t {
            Tok::Shl => Some(BinOp::Shl),
            Tok::Shr => Some(BinOp::Shr),
            Tok::Ushr => Some(BinOp::Ushr),
            _ => None,
        }
    }
}

/// Reads the expression at `p` whose operators bind at least as tight as `level`.
fn read_level(b: &[u8], ts: &Vec<Tok>, p: usize, level: u8, fuel: u128) -> (r: Result<
    (Expr, usize),
    Vec<u8>,
>)
    requires
        level <= 4,
    ensures
        read_of(r) == parse_level(b@, ts@, p as int, level as int, fuel as nat),
    decreases fuel,
{
    proof {
        reveal(parse_level);
        reveal(parse_rest);
        reveal(parse_atom);
    }
    if fuel == 0 {
        return Err(text("nested too deeply"));
    }
    if level >= 4 {
        return read_atom(b, ts, p, fuel - 1);
    }
    match read_level(b, ts, p, level + 1, fuel - 1) {
        Ok((lhs, p1)) => read_rest(b, ts, lhs, p1, level, fuel - 1),
        Err(m) => Err(m),
    }
}

/// Reads what follows `lhs` at `p`.
fn read_rest(b: &[u8], ts: &Vec<Tok>, lhs0: Expr, p0: usize, level: u8, fuel0: u128) -> (r: Result<
    (Expr, usize),
    Vec<u8>,
>)
    requires
        level < 4,
    ensures
        read_of(r) == parse_rest(b@, ts@, lhs0, p0 as int, level as int, fuel0 as nat),
    decreases fuel0,
{
    proof {
        reveal(parse_level);
        reveal(parse_rest);
    }
    let mut lhs: Expr = lhs0;
    let mut p: usize = p0;
    let mut fuel: u128 = fuel0;
    loop
        invariant
            level < 4,
            fuel <= fuel0,
            parse_rest(b@, ts@, lhs0, p0 as int, level as int, fuel0 as nat) == parse_rest(
                b@,
                ts@,
                lhs,
                p as int,
                level as int,
                fuel as nat,
            ),
        decreases fuel,
    {
        proof {
            reveal(parse_level);
            reveal(parse_rest);
        }
        match operator(at(ts, p), level) {
            None => {
                return Ok((lhs, p));
            },
            Some(op) => {
                if fuel == 0 {
                    return Err(text("nested too deeply"));
                }
                match read_level(b, ts, p + 1, level + 1, fuel - 1) {
                    Ok((rhs, p1)) => {
                        lhs = Expr::Bin(op, Box::new(lhs), Box::new(rhs));
                        p = p1;
                        fuel = fuel - 1;
                    },
                    Err(m) => {
                        return Err(m);
                    },
                }
            },
        }
    }
}

/// Reads the primary expression at `p` with its field accesses.
fn read_atom(b: &[u8], ts: &Vec<Tok>, p: usize, fuel: u128) -> (r: Result<(Expr, usize), Vec<u8>>)
    ensures
        read_of(r) == parse_atom(b@, ts@, p as int, fuel as nat),
    decreases fuel,
{
    proof {
        reveal(parse_atom);
        reveal(parse_primary);
    }
    if fuel == 0 {
        return Err(text("nested too deeply"));
    }
    match read_primary(b, ts, p, fuel - 1) {
        Ok((e, p1)) => read_fields(b, ts, e, p1),
        Err(m) => Err(m),
    }
}

/// Reads the field accesses of an expression.
fn read_fields(b: &[u8], ts: &Vec<Tok>, e0: Expr, p0: usize) -> (r: Result<(Expr, usize), Vec<u8>>)
    ensures
        read_of(r) == parse_fields(b@, ts@, e0, p0 as int),
{
    let mut e: Expr = e0;
    let mut p: usize = p0;
    while p < ts.len() && ts[p] == Tok::Dot
        invariant
            parse_fields(b@, ts@, e0, p0 as int) == parse_fields(
                b@,
                ts@,
                e,
                p as int,
            ),
        decreases ts.len() - p,
    {
        match at(ts, p + 1) {
            Tok::Ident(start, end) => {
                e = Expr::Field(Box::new(e), Name { start, end });
                p = p + 2;
            },
            t => {
                return Err(not_this(b, "expected field name after `.`, found ", t));
            },
        }
    }
    Ok((e, p))
}

/// Reads the primary expression at `p`.
fn read_primary(b: &[u8], ts: &Vec<Tok>, p: usize, fuel: u128) -> (r: Result<
    (Expr, usize),
    Vec<u8>,
>)
    ensures
        read_of(r) == parse_primary(b@, ts@, p as int, fuel as nat),
    decreases fuel,
{
    proof {
        reveal(parse_primary);
        reveal(parse_args);
        reveal(parse_level);
        reveal(parse_atom);
    }
    if fuel == 0 {
        return Err(text("nested too deeply"));
    }
    match at(ts, p) {
        Tok::Int(n) => Ok((Expr::Int(n), p + 1)),
        Tok::Float(_, _, k) => Ok((Expr::Float(k), p + 1)),
        Tok::Ident(start, end) => {
            let name: Name = Name { start, end };
            if ahead(ts, p, 1) != Tok::LParen {
                return Ok((Expr::Var(name), p + 1));
            }
            if ahead(ts, p, 2) == Tok::RParen {
                return Ok((Expr::Call(name, Box::new(Args::Nil)), p + 3));
            }
            match read_args(b, ts, p + 2, fuel - 1) {
                Ok((args, p1)) => Ok((Expr::Call(name, Box::new(args)), p1)),
                Err(m) => Err(m),
            }
        },
        Tok::LParen => match read_level(b, ts, p + 1, 0, fuel - 1) {
            Ok((e, p1)) => if at(ts, p1) == Tok::RParen {
                Ok((e, p1 + 1))
            } else {
                Err(expected(b, Tok::RParen, at(ts, p1)))
            },
            Err(m) => Err(m),
        },
        Tok::Minus => match read_atom(b, ts, p + 1, fuel - 1) {
            Ok((e, p1)) => Ok(
                (Expr::Bin(BinOp::Sub, Box::new(Expr::Int(0)), Box::new(e)), p1),
            ),
            Err(m) => Err(m),
        },
        t => Err(not_this(b, "unexpected token ", t)),
    }
}

/// Reads the arguments at `p` up to the closing parenthesis.
fn read_args(b: &[u8], ts: &Vec<Tok>, p0: usize, fuel0: u128) -> (r: Result<(Args, usize), Vec<u8>>)
    ensures
        read_of(r) == parse_args(b@, ts@, Args::Nil, p0 as int, fuel0 as nat),
    decreases fuel0,
{
    let mut done: Args = Args::Nil;
    let mut p: usize = p0;
    let mut fuel: u128 = fuel0;
    loop
        invariant
            fuel <= fuel0,
            parse_args(b@, ts@, Args::Nil, p0 as int, fuel0 as nat) == parse_args(
                b@,
                ts@,
                done,
                p as int,
                fuel as nat,
            ),
        decreases fuel,
    {
        proof {
            reveal(parse_args);
            reveal(parse_level);
        }
        if fuel == 0 {
            return Err(text("nested too deeply"));
        }
        match read_level(b, ts, p, 0, fuel - 1) {
            Err(m) => {
                return Err(m);
            },
            Ok((e, p1)) => {
                done = Args::Snoc(Box::new(done), e);
                match at(ts, p1) {
                    Tok::Comma => {
                        p = p1 + 1;
                        fuel = fuel - 1;
                    },
                    Tok::RParen => {
                        return Ok((done, p1 + 1));
                    },
                    t => {
                        return Err(not_this(b, "expected `,` or `)`, found ", t));
                    },
                }
            },
        }
    }
}

/// The first place from `p` on that does not hold a separator.
fn past_seps(ts: &Vec<Tok>, p0: usize) -> (r: usize)
    ensures
        r == skip_seps(ts@, p0 as int),
        r >= p0,
{
    let mut p: usize = p0;
    while p < ts.len() && ts[p] == Tok::Sep
        invariant
            p0 <= p,
            skip_seps(ts@, p0 as int) == skip_seps(ts@, p as int),
        decreases ts.len() - p,
    {
        p = p + 1;
    }
    p
}

/// Reads the statements at `p0` up to the end of the block.
fn read_block(b: &[u8], ts: &Vec<Tok>, p0: usize, fuel0: u128) -> (r: Result<
    (Block, usize),
    Vec<u8>,
>)
    ensures
        read_of(r) == parse_block(b@, ts@, Block::Nil, p0 as int, fuel0 as nat),
    decreases fuel0, 1nat,
{
    let mut done: Block = Block::Nil;
    let mut p: usize = p0;
    let mut fuel: u128 = fuel0;
    loop
        invariant
            fuel <= fuel0,
            parse_block(b@, ts@, Block::Nil, p0 as int, fuel0 as nat) == parse_block(
                b@,
                ts@,
                done,
                p as int,
                fuel as nat,
            ),
        decreases fuel,
    {
        proof {
            reveal(parse_block);
            reveal(parse_stmt);
        }
        let q: usize = past_seps(ts, p);
        let t: Tok = at(ts, q);
        if t == Tok::End || t == Tok::Else || t == Tok::Elseif || t == Tok::Eof {
            return Ok((done, q));
        }
        if fuel == 0 {
            return Err(text("nested too deeply"));
        }
        match read_stmt(b, ts, q, fuel - 1) {
            Ok((s, p1)) => {
                done = Block::Snoc(Box::new(done), Box::new(s));
                p = p1;
                fuel = fuel - 1;
            },
            Err(m) => {
                return Err(m);
            },
        }
    }
}

/// Whether `t` is an identifier.
fn is_ident(t: Tok) -> (r: bool)
    ensures
        r == (t is Ident),
{
    match t {
        Tok::Ident(_, _) => true,
        _ => false,
    }
}

/// The name that `t` is.
fn name_of_token(t: Tok) -> (r: Name)
    ensures
        r == match t {
            Tok::Ident(start, end) => (Name { start, end }),
            _ => (Name { start: 0, end: 0 }),
        },
{
    match t {
        Tok::Ident(start, end) => Name { start, end },
        _ => Name { start: 0, end: 0 },
    }
}

/// Reads the statement at `p`.
fn read_stmt(b: &[u8], ts: &Vec<Tok>, p: usize, fuel: u128) -> (r: Result<
    (SrcStmt, usize),
    Vec<u8>,
>)
    ensures
        read_of(r) == parse_stmt(b@, ts@, p as int, fuel as nat),
    decreases fuel, 0nat,
{
    proof {
        reveal(parse_stmt);
        reveal(parse_block);
        reveal(parse_if);
    }
    if fuel == 0 {
        return Err(text("nested too deeply"));
    }
    let t: Tok = at(ts, p);
    if t == Tok::Struct {
        return read_struct(b, ts, p + 1, false);
    }
    if t == Tok::Mutable {
        if ahead(ts, p, 1) == Tok::Struct {
            return read_struct(b, ts, p + 2, true);
        }
        return Err(expected(b, Tok::Struct, ahead(ts, p, 1)));
    }
    let ident: bool = is_ident(t);
    if ident && ahead(ts, p, 1) == Tok::Dot && is_ident(ahead(ts, p, 2)) && ahead(ts, p, 3)
        == Tok::Assign {
        return match read_level(b, ts, p + 4, 0, fuel - 1) {
            Ok((e, p1)) => Ok(
                (
                    SrcStmt::FieldAssign(
                        name_of_token(t),
                        name_of_token(ahead(ts, p, 2)),
                        e,
                    ),
                    p1,
                ),
            ),
            Err(m) => Err(m),
        };
    }
    if t == Tok::While {
        return match read_level(b, ts, p + 1, 0, fuel - 1) {
            Err(m) => Err(m),
            Ok((cond, p1)) => match read_block(b, ts, p1, fuel - 1) {
                Err(m) => Err(m),
                Ok((body, p2)) => if at(ts, p2) == Tok::End {
                    Ok((SrcStmt::While(cond, body), p2 + 1))
                } else {
                    Err(expected(b, Tok::End, at(ts, p2)))
                },
            },
        };
    }
    if t == Tok::If {
        return read_if(b, ts, p + 1, fuel - 1);
    }
    if ident && ahead(ts, p, 1) == Tok::Assign {
        return match read_level(b, ts, p + 2, 0, fuel - 1) {
            Ok((e, p1)) => Ok((SrcStmt::Assign(name_of_token(t), e), p1)),
            Err(m) => Err(m),
        };
    }
    match read_level(b, ts, p, 0, fuel - 1) {
        Ok((e, p1)) => Ok((SrcStmt::Expr(e), p1)),
        Err(m) => Err(m),
    }
}

/// Reads the conditional at `p`, after its keyword.
fn read_if(b: &[u8], ts: &Vec<Tok>, p: usize, fuel: u128) -> (r: Result<(SrcStmt, usize), Vec<u8>>)
    ensures
        read_of(r) == parse_if(b@, ts@, p as int, fuel as nat),
    decreases fuel, 0nat,
{
    proof {
        reveal(parse_if);
        reveal(parse_block);
    }
    if fuel == 0 {
        return Err(text("nested too deeply"));
    }
    let (cond, p1): (Expr, usize) = match read_level(b, ts, p, 0, fuel - 1) {
        Err(m) => {
            return Err(m);
        },
        Ok(x) => x,
    };
    let (yes, p2): (Block, usize) = match read_block(b, ts, p1, fuel - 1) {
        Err(m) => {
            return Err(m);
        },
        Ok(x) => x,
    };
    match at(ts, p2) {
        Tok::End => Ok((SrcStmt::If(cond, yes, Block::Nil), p2 + 1)),
        Tok::Else => match read_block(b, ts, p2 + 1, fuel - 1) {
            Err(m) => Err(m),
            Ok((no, p3)) => if at(ts, p3) == Tok::End {
                Ok((SrcStmt::If(cond, yes, no), p3 + 1))
            } else {
                Err(expected(b, Tok::End, at(ts, p3)))
            },
        },
        Tok::Elseif => match read_if(b, ts, p2 + 1, fuel - 1) {
            Err(m) => Err(m),
            Ok((inner, p3)) => Ok(
                (
                    SrcStmt::If(
                        cond,
                        yes,
                        Block::Snoc(Box::new(Block::Nil), Box::new(inner)),
                    ),
                    p3,
                ),
            ),
        },
        t => Err(not_this(b, "expected else/elseif/end, found ", t)),
    }
}

/// Reads the struct definition at `p`, after its keywords.
fn read_struct(b: &[u8], ts: &Vec<Tok>, p: usize, mutabl: bool) -> (r: Result<
    (SrcStmt, usize),
    Vec<u8>,
>)
    ensures
        read_of(r) == parse_struct(b@, ts@, p as int, mutabl),
{
    match at(ts, p) {
        Tok::Ident(start, end) => match read_decls(b, ts, p + 1) {
            Ok((fields, p1)) => Ok(
                (SrcStmt::StructDef(Name { start, end }, mutabl, fields), p1),
            ),
            Err(m) => Err(m),
        },
        t => Err(not_this(b, "expected struct name, found ", t)),
    }
}

/// Reads the field declarations at `p0` up to the end.
fn read_decls(b: &[u8], ts: &Vec<Tok>, p0: usize) -> (r: Result<(Fields, usize), Vec<u8>>)
    ensures
        read_of(r) == parse_decls(b@, ts@, Fields::Nil, p0 as int),
{
    let mut done: Fields = Fields::Nil;
    let mut p: usize = p0;
    loop
        invariant
            parse_decls(b@, ts@, Fields::Nil, p0 as int) == parse_decls(
                b@,
                ts@,
                done,
                p as int,
            ),
        decreases (if p < ts.len() { ts.len() - p } else { 0 }),
    {
        let q: usize = past_seps(ts, p);
        if q >= ts.len() {
            return Err(not_this(b, "expected field or `end` in struct, found ", Tok::Eof));
        }
        match at(ts, q) {
            Tok::End => {
                return Ok((done, q + 1));
            },
            Tok::Ident(start, end) => {
                let name: Name = Name { start, end };
                if ahead(ts, q, 1) == Tok::ColonColon {
                    match ahead(ts, q, 2) {
                        Tok::Ident(s2, e2) => {
                            done = Fields::Snoc(
                                Box::new(done),
                                name,
                                Some(Name { start: s2, end: e2 }),
                            );
                            p = q + 3;
                        },
                        t => {
                            return Err(not_this(b, "expected field type, found ", t));
                        },
                    }
                } else {
                    done = Fields::Snoc(Box::new(done), name, None);
                    p = q + 1;
                }
            },
            t => {
                return Err(not_this(b, "expected field or `end` in struct, found ", t));
            },
        }
    }
}

/// Parses a program.
pub fn parse_program(b: &[u8], ts: &Vec<Tok>) -> (r: Result<Block, Vec<u8>>)
    ensures
        match r {
            Ok(x) => parse_tokens(b@, ts@) == Ok::<Block, Seq<u8>>(x),
            Err(m) => parse_tokens(b@, ts@) == Err::<Block, Seq<u8>>(m@),
        },
{
    let fuel: u128 = 16 * (ts.len() as u128) + 64;
    match read_block(b, ts, 0, fuel) {
        Err(m) => Err(m),
        Ok((block, p)) => if at(ts, p) == Tok::Eof {
            Ok(block)
        } else {
            Err(not_this(b, "unexpected ", at(ts, p)))
        },
    }
}

// --- depth ------------------------------------------------------------------

/// What `k` steps of depth at `p` and all depth from there on can take.
spec fn depth(ts: Seq<Tok>, p: int, k: int) -> int {
    16 * (ts.len() - p) + k
}

/// Whether what was read ends after `p` and within the tokens.
spec fn moves<T>(ts: Seq<Tok>, p: int, r: Result<(T, int), Seq<u8>>) -> bool {
    match r {
        Ok((_, q)) => p < q <= ts.len(),
        Err(_) => true,
    }
}

proof fn lemma_level_depth(b: Seq<u8>, ts: Seq<Tok>, p: int, level: int, f: nat, g: nat)
    requires
        0 <= p <= ts.len(),
        0 <= level <= 4,
        f >= depth(ts, p, 7 - level),
        g >= depth(ts, p, 7 - level),
    ensures
        parse_level(b, ts, p, level, f) == parse_level(b, ts, p, level, g),
        moves(ts, p, parse_level(b, ts, p, level, f)),
    decreases f,
{
    reveal(parse_level);
    reveal(parse_rest);
    reveal(parse_atom);
    let f1 = (f - 1) as nat;
    let g1 = (g - 1) as nat;
    if level >= 4 {
        lemma_atom_depth(b, ts, p, f1, g1);
    } else {
        lemma_level_depth(b, ts, p, level + 1, f1, g1);
        match parse_level(b, ts, p, level + 1, f1) {
            Ok((lhs, p1)) => lemma_rest_depth(b, ts, lhs, p1, level, f1, g1),
            Err(m) => {},
        }
    }
}

proof fn lemma_rest_depth(
    b: Seq<u8>,
    ts: Seq<Tok>,
    lhs: Expr,
    p: int,
    level: int,
    f: nat,
    g: nat,
)
    requires
        0 <= p <= ts.len(),
        0 <= level < 4,
        f >= depth(ts, p, 0),
        g >= depth(ts, p, 0),
    ensures
        parse_rest(b, ts, lhs, p, level, f) == parse_rest(b, ts, lhs, p, level, g),
        moves(ts, p - 1, parse_rest(b, ts, lhs, p, level, f)),
    decreases f,
{
    reveal(parse_rest);
    reveal(parse_level);
    match op_at(tok(ts, p), level) {
        None => {},
        Some(op) => {
            assert(p < ts.len());
            let f1 = (f - 1) as nat;
            let g1 = (g - 1) as nat;
            lemma_level_depth(b, ts, p + 1, level + 1, f1, g1);
            match parse_level(b, ts, p + 1, level + 1, f1) {
                Ok((rhs, p1)) => lemma_rest_depth(
                    b,
                    ts,
                    Expr::Bin(op, Box::new(lhs), Box::new(rhs)),
                    p1,
                    level,
                    f1,
                    g1,
                ),
                Err(m) => {},
            }
        },
    }
}

proof fn lemma_fields_move(b: Seq<u8>, ts: Seq<Tok>, e: Expr, p: int)
    requires
        0 <= p <= ts.len(),
    ensures
        moves(ts, p - 1, parse_fields(b, ts, e, p)),
    decreases ts.len() - p,
{
    if tok(ts, p) == Tok::Dot {
        match tok(ts, p + 1) {
            Tok::Ident(start, end) => lemma_fields_move(
                b,
                ts,
                Expr::Field(Box::new(e), Name { start, end }),
                p + 2,
            ),
            _ => {},
        }
    }
}

proof fn lemma_atom_depth(b: Seq<u8>, ts: Seq<Tok>, p: int, f: nat, g: nat)
    requires
        0 <= p <= ts.len(),
        f >= depth(ts, p, 2),
        g >= depth(ts, p, 2),
    ensures
        parse_atom(b, ts, p, f) == parse_atom(b, ts, p, g),
        moves(ts, p, parse_atom(b, ts, p, f)),
    decreases f,
{
    reveal(parse_atom);
    reveal(parse_primary);
    lemma_primary_depth(b, ts, p, (f - 1) as nat, (g - 1) as nat);
    match parse_primary(b, ts, p, (f - 1) as nat) {
        Ok((e, p1)) => lemma_fields_move(b, ts, e, p1),
        Err(m) => {},
    }
}

proof fn lemma_primary_depth(b: Seq<u8>, ts: Seq<Tok>, p: int, f: nat, g: nat)
    requires
        0 <= p <= ts.len(),
        f >= depth(ts, p, 1),
        g >= depth(ts, p, 1),
    ensures
        parse_primary(b, ts, p, f) == parse_primary(b, ts, p, g),
        moves(ts, p, parse_primary(b, ts, p, f)),
    decreases f,
{
    reveal(parse_primary);
    reveal(parse_args);
    reveal(parse_level);
    reveal(parse_atom);
    let f1 = (f - 1) as nat;
    let g1 = (g - 1) as nat;
    match tok(ts, p) {
        Tok::Ident(start, end) => {
            if tok(ts, p + 1) == Tok::LParen && tok(ts, p + 2) != Tok::RParen {
                lemma_args_depth(b, ts, Args::Nil, p + 2, f1, g1);
            }
        },
        Tok::LParen => lemma_level_depth(b, ts, p + 1, 0, f1, g1),
        Tok::Minus => lemma_atom_depth(b, ts, p + 1, f1, g1),
        _ => {},
    }
}

proof fn lemma_args_depth(b: Seq<u8>, ts: Seq<Tok>, done: Args, p: int, f: nat, g: nat)
    requires
        0 <= p <= ts.len(),
        f >= depth(ts, p, 8),
        g >= depth(ts, p, 8),
    ensures
        parse_args(b, ts, done, p, f) == parse_args(b, ts, done, p, g),
        moves(ts, p, parse_args(b, ts, done, p, f)),
    decreases f,
{
    reveal(parse_args);
    reveal(parse_level);
    let f1 = (f - 1) as nat;
    let g1 = (g - 1) as nat;
    lemma_level_depth(b, ts, p, 0, f1, g1);
    match parse_level(b, ts, p, 0, f1) {
        Err(m) => {},
        Ok((e, p1)) => {
            if tok(ts, p1) == Tok::Comma {
                lemma_args_depth(b, ts, Args::Snoc(Box::new(done), e), p1 + 1, f1, g1);
            }
        },
    }
}

proof fn lemma_skip_moves(ts: Seq<Tok>, p: int)
    requires
        0 <= p <= ts.len(),
    ensures
        p <= skip_seps(ts, p) <= ts.len(),
    decreases ts.len() - p,
{
    if p < ts.len() && ts[p] == Tok::Sep {
        lemma_skip_moves(ts, p + 1);
    }
}

proof fn lemma_decls_move(b: Seq<u8>, ts: Seq<Tok>, done: Fields, p: int)
    requires
        0 <= p <= ts.len(),
    ensures
        moves(ts, p, parse_decls(b, ts, done, p)),
    decreases ts.len() - p,
{
    lemma_skip_moves(ts, p);
    let q = skip_seps(ts, p);
    if q < ts.len() {
        match tok(ts, q) {
            Tok::Ident(start, end) => {
                let name = Name { start, end };
                if tok(ts, q + 1) == Tok::ColonColon {
                    match tok(ts, q + 2) {
                        Tok::Ident(s2, e2) => lemma_decls_move(
                            b,
                            ts,
                            Fields::Snoc(Box::new(done), name, Some(Name { start: s2, end: e2 })),
                            q + 3,
                        ),
                        _ => {},
                    }
                } else {
                    lemma_decls_move(b, ts, Fields::Snoc(Box::new(done), name, None), q + 1);
                }
            },
            _ => {},
        }
    }
}

proof fn lemma_block_depth(b: Seq<u8>, ts: Seq<Tok>, done: Block, p0: int, f: nat, g: nat)
    requires
        0 <= p0 <= ts.len(),
        f >= depth(ts, p0, 10),
        g >= depth(ts, p0, 10),
    ensures
        parse_block(b, ts, done, p0, f) == parse_block(b, ts, done, p0, g),
        moves(ts, p0 - 1, parse_block(b, ts, done, p0, f)),
    decreases f,
{
    reveal(parse_block);
    reveal(parse_stmt);
    lemma_skip_moves(ts, p0);
    let p = skip_seps(ts, p0);
    if !ends_block(tok(ts, p)) {
        let f1 = (f - 1) as nat;
        let g1 = (g - 1) as nat;
        lemma_stmt_depth(b, ts, p, f1, g1);
        match parse_stmt(b, ts, p, f1) {
            Ok((s, p1)) => lemma_block_depth(
                b,
                ts,
                Block::Snoc(Box::new(done), Box::new(s)),
                p1,
                f1,
                g1,
            ),
            Err(m) => {},
        }
    }
}

proof fn lemma_stmt_depth(b: Seq<u8>, ts: Seq<Tok>, p: int, f: nat, g: nat)
    requires
        0 <= p < ts.len(),
        f >= depth(ts, p, 9),
        g >= depth(ts, p, 9),
    ensures
        parse_stmt(b, ts, p, f) == parse_stmt(b, ts, p, g),
        moves(ts, p, parse_stmt(b, ts, p, f)),
    decreases f,
{
    reveal(parse_stmt);
    reveal(parse_block);
    reveal(parse_if);
    let f1 = (f - 1) as nat;
    let g1 = (g - 1) as nat;
    if tok(ts, p) == Tok::Struct {
        if tok(ts, p + 1) is Ident {
            lemma_decls_move(b, ts, Fields::Nil, p + 2);
        }
    } else if tok(ts, p) == Tok::Mutable {
        if tok(ts, p + 1) == Tok::Struct && tok(ts, p + 2) is Ident {
            lemma_decls_move(b, ts, Fields::Nil, p + 3);
        }
    } else if is_field_assign(ts, p) {
        lemma_level_depth(b, ts, p + 4, 0, f1, g1);
    } else if tok(ts, p) == Tok::While {
        lemma_level_depth(b, ts, p + 1, 0, f1, g1);
        match parse_expr(b, ts, p + 1, f1) {
            Err(m) => {},
            Ok((cond, p1)) => lemma_block_depth(b, ts, Block::Nil, p1, f1, g1),
        }
    } else if tok(ts, p) == Tok::If {
        lemma_if_depth(b, ts, p + 1, f1, g1);
    } else if tok(ts, p) is Ident && tok(ts, p + 1) == Tok::Assign {
        lemma_level_depth(b, ts, p + 2, 0, f1, g1);
    } else {
        lemma_level_depth(b, ts, p, 0, f1, g1);
    }
}

proof fn lemma_if_depth(b: Seq<u8>, ts: Seq<Tok>, p: int, f: nat, g: nat)
    requires
        0 <= p <= ts.len(),
        f >= depth(ts, p, 8),
        g >= depth(ts, p, 8),
    ensures
        parse_if(b, ts, p, f) == parse_if(b, ts, p, g),
        moves(ts, p, parse_if(b, ts, p, f)),
    decreases f,
{
    reveal(parse_if);
    reveal(parse_block);
    let f1 = (f - 1) as nat;
    let g1 = (g - 1) as nat;
    lemma_level_depth(b, ts, p, 0, f1, g1);
    match parse_expr(b, ts, p, f1) {
        Err(m) => {},
        Ok((cond, p1)) => {
            lemma_block_depth(b, ts, Block::Nil, p1, f1, g1);
            match parse_block(b, ts, Block::Nil, p1, f1) {
                Err(m) => {},
                Ok((yes, p2)) => {
                    if tok(ts, p2) == Tok::Else {
                        lemma_block_depth(b, ts, Block::Nil, p2 + 1, f1, g1);
                    } else if tok(ts, p2) == Tok::Elseif {
                        lemma_if_depth(b, ts, p2 + 1, f1, g1);
                    }
                },
            }
        },
    }
}

/// The parser's depth never decides: any greater depth reads the same program or
/// tells the same error.
pub proof fn law_depth_suffices(b: Seq<u8>, ts: Seq<Tok>, f: nat)
    requires
        f >= fuel_for(ts.len() as int),
    ensures
        parse_block(b, ts, Block::Nil, 0, f) == parse_block(
            b,
            ts,
            Block::Nil,
            0,
            fuel_for(ts.len() as int),
        ),
{
    lemma_block_depth(b, ts, Block::Nil, 0, f, fuel_for(ts.len() as int));
}

} // verus!
