//! Whole calls leave the shadow stack as they found it: a program run from its start, a
//! call of a generic function, a source text from its first byte to its result.

use std::rc::Rc;
use vstd::prelude::*;
use crate::balance;
use crate::frames;
use crate::frames::stacked;
use crate::frontend::{args_code, block_code, expr_code, fields_of, name_text, stmt_code, LowV};
use crate::heights::level;
use crate::id;
use crate::interp_spec::{MachineV, Status};
use crate::ir::{Body, StmtV};
use crate::parser::{Args, Block, Expr, Fields, SrcStmt};
use crate::state::{State, Value};

verus! {

/// Whether a program left the shadow stack as high as `floor`, if it ended.
pub open spec fn settled(e: State, m: MachineV, floor: int) -> bool {
    m.status is Returned || m.status is Raised ==> e.roots.len() == floor
}

/// A program that is run from its start and ends, whether it returns or raises, leaves
/// the shadow stack as high as it found it. One that pauses holds there what it needs.
pub proof fn law_begin_balances(
    s: State,
    body: Rc<Body>,
    seeds: Seq<(usize, Value)>,
    flush: Seq<(usize, u32)>,
)
    ensures
        ({
            let (e, m) = s.begin(body, seeds, flush);
            stacked(e, m, s.roots.len() as int) && settled(e, m, s.roots.len() as int)
        }),
{
    let none = MachineV { acts: Seq::empty(), status: Status::Running };
    let floor = s.roots.len() as int;
    assert(stacked(s, none, floor));
    frames::law_replies_balance(s, none, body, seeds, flush, 0, Ok(Value(0)), floor);
    let (a, m) = s.start(body, seeds, flush);
    frames::law_programs_balance(a, m, u64::MAX as nat, floor);
}

/// A call of a generic function that ends leaves the shadow stack as high as it found
/// it, and so does one that is left to a compiled method.
pub proof fn law_invoke_balances(s: State, func: u32, args: Seq<Value>)
    ensures
        ({
            let (e, m) = s.invoke(func, args);
            &&& settled(e, m, s.roots.len() as int)
            &&& m.acts.len() == 0 && m.status is Compiled ==> e.roots.len() == s.roots.len()
        }),
{
    let types = args.map_values(|v: Value| s.tag(v.0));
    frames::law_dispatch_balances(s, func, types);
    let (a, chosen) = s.select(func, types);
    match chosen {
        Some(i) if i < a.methods.len() => {
            match a.methods[i as int].body {
                Some(body) => {
                    law_begin_balances(
                        a,
                        body,
                        args.map(|i: int, v: Value| (i as usize, v)),
                        Seq::empty(),
                    );
                },
                None => {},
            }
        },
        _ => {},
    }
}

/// Adding two boxed integers leaves the shadow stack as high as it was.
pub proof fn law_demo_add_balances(s: State, a: i64, b: i64)
    ensures
        s.demo_add(a, b).0.roots.len() == s.roots.len(),
{
    reveal(State::demo_add);
    let (s1, x) = s.box_int(a);
    let (s2, y) = s1.push_root(x).box_int(b);
    let s3 = s2.push_root(y);
    let sum = crate::intrinsics::wrap(s3.unbox_int(x) + s3.unbox_int(y));
    lemma_box(s, a);
    lemma_box(s1.push_root(x), b);
    lemma_box(s3, sum);
}

proof fn lemma_box(s: State, n: i64)
    ensures
        level(s, s.box_int(n).0),
{
    let bits = crate::value::bits_of(n);
    balance::law_values_balance(s, id::INT64, bits, 0, Seq::empty(), Seq::empty());
}

// --- lowering ---------------------------------------------------------------

proof fn lemma_intern(s: State, text: Seq<u8>)
    ensures
        level(s, s.intern(s.builtin(id::SYMBOL), text).0),
{
    balance::law_values_balance(s, 0, 0, s.builtin(id::SYMBOL), text, Seq::empty());
}

proof fn lemma_same_fields(s: State, t: u32, fields: Seq<(Seq<u8>, u32)>, i: int)
    ensures
        level(s, s.same_fields(t, fields, i).0),
    decreases fields.len() - i,
{
    if !(i < 0 || i >= fields.len()) {
        lemma_intern(s, fields[i].0);
        let a = s.intern(s.builtin(id::SYMBOL), fields[i].0).0;
        lemma_same_fields(a, t, fields, i + 1);
    }
}

proof fn lemma_define(s: State, name: Seq<u8>, fields: Seq<(Seq<u8>, u32)>, mutabl: bool)
    ensures
        level(s, s.define_struct_from_source(name, fields, mutabl).0),
{
    reveal(State::define_struct_from_source);
    lemma_intern(s, name);
    let (a, sym) = s.intern(s.builtin(id::SYMBOL), name);
    match a.lookup_struct(sym) {
        Some(t) => {
            lemma_same_fields(a, t, fields, 0);
        },
        None => {
            frames::law_definition_balances(a, name, a.builtin(id::ANY), fields, mutabl);
        },
    }
}

proof fn lemma_expr(b: Seq<u8>, fl: Seq<u64>, s: State, l: LowV, e: Expr)
    ensures
        level(s, expr_code(b, fl, s, l, e).0),
    decreases e,
{
    match e {
        Expr::Bin(op, x, y) => {
            lemma_expr(b, fl, s, l, *x);
            let (s1, l1, _) = expr_code(b, fl, s, l, *x);
            lemma_expr(b, fl, s1, l1, *y);
        },
        Expr::Call(n, args) => {
            lemma_intern(s, name_text(b, n));
            let s1 = s.resolve_type(name_text(b, n)).0;
            lemma_args(b, fl, s1, l, *args);
        },
        Expr::Field(x, n) => {
            lemma_expr(b, fl, s, l, *x);
            let s1 = expr_code(b, fl, s, l, *x).0;
            lemma_intern(s1, name_text(b, n));
        },
        _ => {},
    }
}

proof fn lemma_args(b: Seq<u8>, fl: Seq<u64>, s: State, l: LowV, a: Args)
    ensures
        level(s, args_code(b, fl, s, l, a).0),
    decreases a,
{
    match a {
        Args::Nil => {},
        Args::Snoc(first, e) => {
            lemma_args(b, fl, s, l, *first);
            let (s1, l1, _) = args_code(b, fl, s, l, *first);
            lemma_expr(b, fl, s1, l1, e);
        },
    }
}

proof fn lemma_fields(b: Seq<u8>, s: State, f: Fields)
    ensures
        level(s, fields_of(b, s, f).0),
    decreases f,
{
    match f {
        Fields::Nil => {},
        Fields::Snoc(first, n, ty) => {
            lemma_fields(b, s, *first);
            let s1 = fields_of(b, s, *first).0;
            match ty {
                None => {},
                Some(tn) => {
                    lemma_intern(s1, name_text(b, tn));
                },
            }
        },
    }
}

proof fn lemma_block(b: Seq<u8>, fl: Seq<u64>, s: State, l: LowV, k: Block)
    ensures
        level(s, block_code(b, fl, s, l, k).0),
    decreases k,
{
    match k {
        Block::Nil => {},
        Block::Snoc(first, x) => {
            lemma_block(b, fl, s, l, *first);
            let (s1, l1, _) = block_code(b, fl, s, l, *first);
            lemma_stmt(b, fl, s1, l1, *x);
        },
    }
}

proof fn lemma_stmt(b: Seq<u8>, fl: Seq<u64>, s: State, l: LowV, x: SrcStmt)
    ensures
        level(s, stmt_code(b, fl, s, l, x).0),
    decreases x,
{
    match x {
        SrcStmt::Assign(n, e) => {
            lemma_expr(b, fl, s, l, e);
        },
        SrcStmt::FieldAssign(n, f, e) => {
            lemma_expr(b, fl, s, l, e);
            let s1 = expr_code(b, fl, s, l, e).0;
            lemma_intern(s1, name_text(b, f));
        },
        SrcStmt::Expr(e) => {
            lemma_expr(b, fl, s, l, e);
        },
        SrcStmt::If(c, yes, no) => {
            lemma_expr(b, fl, s, l, c);
            match expr_code(b, fl, s, l, c) {
                (s1, l1, Ok(v)) => {
                    let l2 = l1.emit(StmtV::GotoIfNot(v, 0)).0;
                    lemma_block(b, fl, s1, l2, yes);
                    let (s3, l3, _) = block_code(b, fl, s1, l2, yes);
                    let l4 = l3.emit(StmtV::Goto(0)).0;
                    lemma_block(b, fl, s3, l4, no);
                },
                _ => {},
            }
        },
        SrcStmt::While(c, body) => {
            lemma_expr(b, fl, s, l, c);
            match expr_code(b, fl, s, l, c) {
                (s1, l1, Ok(v)) => {
                    let l2 = l1.emit(StmtV::GotoIfNot(v, 0)).0;
                    lemma_block(b, fl, s1, l2, body);
                },
                _ => {},
            }
        },
        SrcStmt::StructDef(n, mutabl, f) => {
            lemma_fields(b, s, f);
            match fields_of(b, s, f) {
                (s1, Ok(fs)) => {
                    lemma_define(s1, name_text(b, n), fs, mutabl);
                },
                _ => {},
            }
        },
    }
}

/// A source text that is lowered, whether it is accepted or not, leaves the shadow
/// stack as high as it was; and its program, run to its end, does so too.
pub proof fn law_source_balances(s: State, src: Seq<u8>, floats: Seq<u64>, body: Rc<Body>)
    ensures
        s.lower_source(src, floats).0.roots.len() == s.roots.len(),
        ({
            let a = s.lower_source(src, floats).0;
            let (e, m) = a.begin(body, Seq::empty(), Seq::empty());
            settled(e, m, s.roots.len() as int)
        }),
{
    let a = s.lower_source(src, floats).0;
    match crate::lexer::tokens(src, 0, 0) {
        Ok(ts) => match crate::parser::parse_tokens(src, ts) {
            Ok(p) => {
                let none = LowV { code: Seq::empty(), slots: Seq::empty() };
                lemma_block(src, floats, s, none, p);
            },
            Err(_) => {},
        },
        Err(_) => {},
    }
    law_begin_balances(a, body, Seq::empty(), Seq::empty());
}

} // verus!
