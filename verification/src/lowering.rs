//! The shape of lowered code: where conditionals and loops lead.

use vstd::prelude::*;
use crate::frontend::{args_code, block_code, expr_code, name_text, stmt_code, LowV};
use crate::id;
use crate::ir::{Op, StmtV};
use crate::parser::{Args, Block, Expr, Name, SrcStmt};
use crate::state::State;

verus! {

/// Whether `m` is `l` with statements and slots added behind those of `l`.
pub open spec fn adds(l: LowV, m: LowV) -> bool {
    &&& l.code.len() <= m.code.len()
    &&& forall|i: int| 0 <= i < l.code.len() ==> #[trigger] m.code[i] == l.code[i]
    &&& l.slots.len() <= m.slots.len()
    &&& forall|i: int| 0 <= i < l.slots.len() ==> #[trigger] m.slots[i] == l.slots[i]
}

/// A jump is patched in place, and nothing else changes.
proof fn lemma_patch(l: LowV, i: usize, target: usize)
    requires
        i < l.code.len(),
    ensures
        ({
            let m = l.patch(i, target);
            &&& m.slots == l.slots
            &&& m.code.len() == l.code.len()
            &&& forall|k: int| 0 <= k < l.code.len() && k != i ==> #[trigger] m.code[k] == l.code[k]
            &&& l.code[i as int] matches StmtV::Goto(_) ==> m.code[i as int] == StmtV::Goto(target)
            &&& l.code[i as int] matches StmtV::GotoIfNot(c, _) ==> m.code[i as int]
                == StmtV::GotoIfNot(c, target)
        }),
{
}

/// The code of an expression is added behind what is there.
proof fn lemma_expr_adds(b: Seq<u8>, fl: Seq<u64>, s: State, l: LowV, e: Expr)
    ensures
        adds(l, expr_code(b, fl, s, l, e).1),
    decreases e,
{
    match e {
        Expr::Bin(op, x, y) => {
            lemma_expr_adds(b, fl, s, l, *x);
            let (s1, l1, r1) = expr_code(b, fl, s, l, *x);
            if r1 is Ok {
                lemma_expr_adds(b, fl, s1, l1, *y);
            }
        },
        Expr::Call(n, args) => {
            let (s1, r) = s.resolve_type(name_text(b, n));
            if r is Ok {
                lemma_args_add(b, fl, s1, l, *args);
            }
        },
        Expr::Field(x, n) => {
            lemma_expr_adds(b, fl, s, l, *x);
        },
        _ => {},
    }
}

proof fn lemma_args_add(b: Seq<u8>, fl: Seq<u64>, s: State, l: LowV, a: Args)
    ensures
        adds(l, args_code(b, fl, s, l, a).1),
    decreases a,
{
    match a {
        Args::Nil => {},
        Args::Snoc(first, e) => {
            lemma_args_add(b, fl, s, l, *first);
            let (s1, l1, r1) = args_code(b, fl, s, l, *first);
            if r1 is Ok {
                lemma_expr_adds(b, fl, s1, l1, e);
            }
        },
    }
}

/// The code of some statements is added behind what is there.
proof fn lemma_block_adds(b: Seq<u8>, fl: Seq<u64>, s: State, l: LowV, k: Block)
    requires
        block_code(b, fl, s, l, k).1.code.len() <= usize::MAX,
    ensures
        adds(l, block_code(b, fl, s, l, k).1),
    decreases k,
{
    match k {
        Block::Nil => {},
        Block::Snoc(first, x) => {
            let (s1, l1, r1) = block_code(b, fl, s, l, *first);
            if r1 is Ok {
                lemma_longer(b, fl, s1, l1, *x);
                lemma_block_adds(b, fl, s, l, *first);
                lemma_stmt_adds(b, fl, s1, l1, *x);
            } else {
                lemma_block_adds(b, fl, s, l, *first);
            }
        },
    }
}

/// Code does not get shorter.
proof fn lemma_longer(b: Seq<u8>, fl: Seq<u64>, s: State, l: LowV, x: SrcStmt)
    ensures
        l.code.len() <= stmt_code(b, fl, s, l, x).1.code.len(),
    decreases x,
{
    match x {
        SrcStmt::Assign(n, e) => {
            lemma_expr_adds(b, fl, s, l, e);
        },
        SrcStmt::FieldAssign(n, f, e) => {
            lemma_expr_adds(b, fl, s, l, e);
        },
        SrcStmt::Expr(e) => {
            lemma_expr_adds(b, fl, s, l, e);
        },
        SrcStmt::If(c, yes, no) => {
            lemma_expr_adds(b, fl, s, l, c);
            let (s1, l1, r1) = expr_code(b, fl, s, l, c);
            if let Ok(v) = r1 {
                let (l2, branch) = l1.emit(StmtV::GotoIfNot(v, 0));
                lemma_block_longer(b, fl, s1, l2, yes);
                let (s3, l3, r3) = block_code(b, fl, s1, l2, yes);
                if r3 is Ok {
                    let (l4, skip) = l3.emit(StmtV::Goto(0));
                    lemma_block_longer(b, fl, s3, l4, no);
                }
            }
        },
        SrcStmt::While(c, body) => {
            lemma_expr_adds(b, fl, s, l, c);
            let (s1, l1, r1) = expr_code(b, fl, s, l, c);
            if let Ok(v) = r1 {
                let (l2, branch) = l1.emit(StmtV::GotoIfNot(v, 0));
                lemma_block_longer(b, fl, s1, l2, body);
            }
        },
        SrcStmt::StructDef(n, mutabl, f) => {},
    }
}

proof fn lemma_block_longer(b: Seq<u8>, fl: Seq<u64>, s: State, l: LowV, k: Block)
    ensures
        l.code.len() <= block_code(b, fl, s, l, k).1.code.len(),
    decreases k,
{
    match k {
        Block::Nil => {},
        Block::Snoc(first, x) => {
            lemma_block_longer(b, fl, s, l, *first);
            let (s1, l1, r1) = block_code(b, fl, s, l, *first);
            if r1 is Ok {
                lemma_longer(b, fl, s1, l1, *x);
            }
        },
    }
}

/// The code of a statement is added behind what is there.
proof fn lemma_stmt_adds(b: Seq<u8>, fl: Seq<u64>, s: State, l: LowV, x: SrcStmt)
    requires
        stmt_code(b, fl, s, l, x).1.code.len() <= usize::MAX,
    ensures
        adds(l, stmt_code(b, fl, s, l, x).1),
    decreases x,
{
    match x {
        SrcStmt::Assign(n, e) => {
            lemma_expr_adds(b, fl, s, l, e);
        },
        SrcStmt::FieldAssign(n, f, e) => {
            lemma_expr_adds(b, fl, s, l, e);
        },
        SrcStmt::Expr(e) => {
            lemma_expr_adds(b, fl, s, l, e);
        },
        SrcStmt::If(c, yes, no) => {
            lemma_expr_adds(b, fl, s, l, c);
            let (s1, l1, r1) = expr_code(b, fl, s, l, c);
            if let Ok(v) = r1 {
                let (l2, branch) = l1.emit(StmtV::GotoIfNot(v, 0));
                lemma_block_longer(b, fl, s1, l2, yes);
                let (s3, l3, r3) = block_code(b, fl, s1, l2, yes);
                if r3 is Ok {
                    let (l4, skip) = l3.emit(StmtV::Goto(0));
                    lemma_block_longer(b, fl, s3, l4, no);
                    let (s5, l5, r5) = block_code(b, fl, s3, l4, no);
                    lemma_block_adds(b, fl, s1, l2, yes);
                    lemma_block_adds(b, fl, s3, l4, no);
                    if r5 is Ok {
                        lemma_patch(l5, branch, l4.code.len() as usize);
                        lemma_patch(
                            l5.patch(branch, l4.code.len() as usize),
                            skip,
                            l5.code.len() as usize,
                        );
                    }
                } else {
                    lemma_block_adds(b, fl, s1, l2, yes);
                }
            }
        },
        SrcStmt::While(c, body) => {
            lemma_expr_adds(b, fl, s, l, c);
            let (s1, l1, r1) = expr_code(b, fl, s, l, c);
            if let Ok(v) = r1 {
                let (l2, branch) = l1.emit(StmtV::GotoIfNot(v, 0));
                lemma_block_longer(b, fl, s1, l2, body);
                let (s3, l3, r3) = block_code(b, fl, s1, l2, body);
                lemma_block_adds(b, fl, s1, l2, body);
                if r3 is Ok {
                    let l4 = l3.emit(StmtV::Goto(l.code.len() as usize)).0;
                    lemma_patch(l4, branch, l4.code.len() as usize);
                }
            }
        },
        SrcStmt::StructDef(n, mutabl, f) => {},
    }
}

/// A conditional runs one of its parts. Its code is that of the condition, a jump that is
/// taken where the condition is false, the first part, a jump, and the second part. The
/// first jump leads to the beginning of the second part, and the other one behind it.
pub proof fn law_conditionals(
    b: Seq<u8>,
    fl: Seq<u64>,
    s: State,
    l: LowV,
    c: Expr,
    yes: Block,
    no: Block,
)
    requires
        stmt_code(b, fl, s, l, SrcStmt::If(c, yes, no)).2 is Ok,
        stmt_code(b, fl, s, l, SrcStmt::If(c, yes, no)).1.code.len() <= usize::MAX,
    ensures
        ({
            let m = stmt_code(b, fl, s, l, SrcStmt::If(c, yes, no)).1;
            let (s1, l1, r1) = expr_code(b, fl, s, l, c);
            let (s3, l3, _) = block_code(
                b,
                fl,
                s1,
                l1.emit(StmtV::GotoIfNot(r1->Ok_0, 0)).0,
                yes,
            );
            let l5 = block_code(b, fl, s3, l3.emit(StmtV::Goto(0)).0, no).1;
            let test = l1.code.len() as int;
            let skip = l3.code.len() as int;
            let end = l5.code.len() as int;
            &&& l.code.len() <= test < skip < end
            &&& m.code.len() == end
            &&& m.code[test] == StmtV::GotoIfNot(r1->Ok_0, (skip + 1) as usize)
            &&& m.code[skip] == StmtV::Goto(end as usize)
            &&& forall|i: int| 0 <= i < test ==> #[trigger] m.code[i] == l1.code[i]
            &&& forall|i: int| test < i < skip ==> #[trigger] m.code[i] == l3.code[i]
            &&& forall|i: int| skip < i < end ==> #[trigger] m.code[i] == l5.code[i]
        }),
{
    let (s1, l1, r1) = expr_code(b, fl, s, l, c);
    lemma_expr_adds(b, fl, s, l, c);
    let v = r1->Ok_0;
    let (l2, branch) = l1.emit(StmtV::GotoIfNot(v, 0));
    lemma_block_longer(b, fl, s1, l2, yes);
    let (s3, l3, r3) = block_code(b, fl, s1, l2, yes);
    let (l4, skip) = l3.emit(StmtV::Goto(0));
    lemma_block_longer(b, fl, s3, l4, no);
    let (s5, l5, r5) = block_code(b, fl, s3, l4, no);
    lemma_block_adds(b, fl, s1, l2, yes);
    lemma_block_adds(b, fl, s3, l4, no);
    lemma_patch(l5, branch, l4.code.len() as usize);
    let l6 = l5.patch(branch, l4.code.len() as usize);
    lemma_patch(l6, skip, l5.code.len() as usize);
    assert(l5.code[branch as int] == l2.code[branch as int]) by {
        assert(l4.code[branch as int] == l3.code[branch as int]);
    }
    assert(l5.code[skip as int] == l4.code[skip as int]);
}

/// A loop tests its condition before every run of its body. Its code is that of the
/// condition, a jump that is taken where the condition is false, the body, and a jump to
/// the code of the condition. The first jump leads behind the loop.
pub proof fn law_loops(b: Seq<u8>, fl: Seq<u64>, s: State, l: LowV, c: Expr, body: Block)
    requires
        stmt_code(b, fl, s, l, SrcStmt::While(c, body)).2 is Ok,
        stmt_code(b, fl, s, l, SrcStmt::While(c, body)).1.code.len() <= usize::MAX,
    ensures
        ({
            let m = stmt_code(b, fl, s, l, SrcStmt::While(c, body)).1;
            let (s1, l1, r1) = expr_code(b, fl, s, l, c);
            let l3 = block_code(b, fl, s1, l1.emit(StmtV::GotoIfNot(r1->Ok_0, 0)).0, body).1;
            let test = l1.code.len() as int;
            let back = l3.code.len() as int;
            &&& l.code.len() <= test < back
            &&& m.code.len() == back + 1
            &&& m.code[test] == StmtV::GotoIfNot(r1->Ok_0, (back + 1) as usize)
            &&& m.code[back] == StmtV::Goto(l.code.len() as usize)
            &&& forall|i: int| 0 <= i < test ==> #[trigger] m.code[i] == l1.code[i]
            &&& forall|i: int| test < i < back ==> #[trigger] m.code[i] == l3.code[i]
        }),
{
    let (s1, l1, r1) = expr_code(b, fl, s, l, c);
    lemma_expr_adds(b, fl, s, l, c);
    let v = r1->Ok_0;
    let (l2, branch) = l1.emit(StmtV::GotoIfNot(v, 0));
    lemma_block_longer(b, fl, s1, l2, body);
    let (s3, l3, r3) = block_code(b, fl, s1, l2, body);
    lemma_block_adds(b, fl, s1, l2, body);
    let l4 = l3.emit(StmtV::Goto(l.code.len() as usize)).0;
    lemma_patch(l4, branch, l4.code.len() as usize);
    assert(l4.code[branch as int] == l3.code[branch as int]);
    assert(l3.code[branch as int] == l2.code[branch as int]);
}

/// Code is only added: what was lowered before a statement stays as it is, and so do the
/// slots of the variables met before it.
pub proof fn law_code_is_added(b: Seq<u8>, fl: Seq<u64>, s: State, l: LowV, x: SrcStmt)
    requires
        stmt_code(b, fl, s, l, x).1.code.len() <= usize::MAX,
    ensures
        adds(l, stmt_code(b, fl, s, l, x).1),
{
    lemma_stmt_adds(b, fl, s, l, x);
}

/// The slot of a name, found from `i` on.
proof fn lemma_find(l: LowV, name: Seq<u8>, i: int)
    requires
        0 <= i <= l.slots.len(),
        forall|k: int| 0 <= k < i ==> #[trigger] l.slots[k] != name,
    ensures
        ({
            let k = l.find(name, i);
            &&& i <= k <= l.slots.len()
            &&& k < l.slots.len() ==> l.slots[k] == name
            &&& forall|j: int| 0 <= j < k ==> #[trigger] l.slots[j] != name
        }),
    decreases l.slots.len() - i,
{
    if i < l.slots.len() && l.slots[i] != name {
        lemma_find(l, name, i + 1);
    }
}

/// A variable has one slot: the uses of one name give the same slot, and those of
/// different names different ones, whatever was lowered between them.
pub proof fn law_variables_have_slots(l: LowV, a: Seq<u8>, m: LowV, c: Seq<u8>)
    requires
        adds(l.slot(a).0, m),
        l.slots.no_duplicates(),
        m.slots.no_duplicates(),
        m.slots.len() < usize::MAX,
    ensures
        l.slot(a).0.slots[l.slot(a).1 as int] == a,
        m.slot(c).0.slots[m.slot(c).1 as int] == c,
        l.slot(a).0.slots.no_duplicates(),
        m.slot(c).1 == l.slot(a).1 <==> c == a,
{
    lemma_find(l, a, 0);
    lemma_find(m, c, 0);
    let k = l.slot(a).1 as int;
    let l1 = l.slot(a).0;
    assert(l1.slots[k] == a);
    assert(m.slots[k] == a);
    let n = m.slot(c).1 as int;
    if c == a && n != k {
        if n < m.slots.len() {
            assert(m.slots[n] == m.slots[k]);
        } else {
            assert(m.slots[k] != c);
        }
    }
}

/// The arguments of a call in the order of the source.
pub open spec fn listed(a: Args) -> Seq<Expr>
    decreases a,
{
    match a {
        Args::Nil => Seq::empty(),
        Args::Snoc(first, e) => listed(*first).push(e),
    }
}

/// The operands of arguments stand in the order of the source.
proof fn lemma_arguments(b: Seq<u8>, fl: Seq<u64>, s: State, l: LowV, a: Args)
    requires
        args_code(b, fl, s, l, a).2 is Ok,
    ensures
        ({
            let ops = args_code(b, fl, s, l, a).2->Ok_0;
            &&& ops.len() == listed(a).len()
            &&& forall|i: int|
                0 <= i < ops.len() ==> (#[trigger] listed(a)[i] matches Expr::Int(n) ==> ops[i]
                    == Op::Int(n))
        }),
    decreases a,
{
    match a {
        Args::Nil => {},
        Args::Snoc(first, e) => {
            lemma_arguments(b, fl, s, l, *first);
            let (s1, l1, r1) = args_code(b, fl, s, l, *first);
            let ops = r1->Ok_0;
            let all = args_code(b, fl, s, l, a).2->Ok_0;
            assert(all == ops.push(expr_code(b, fl, s1, l1, e).2->Ok_0));
            assert(listed(a) == listed(*first).push(e));
            assert forall|i: int| 0 <= i < all.len() implies (#[trigger] listed(a)[i] matches Expr::Int(
                n,
            ) ==> all[i] == Op::Int(n)) by {
                if i < ops.len() {
                    assert(listed(a)[i] == listed(*first)[i]);
                    assert(all[i] == ops[i]);
                }
            }
        },
    }
}

/// A constructor call ends in the statement that makes the instance, with one operand for
/// each argument, in the order of the source; its value is that statement's result.
pub proof fn law_constructor_arguments_keep_their_order(
    b: Seq<u8>,
    fl: Seq<u64>,
    s: State,
    l: LowV,
    n: Name,
    args: Box<Args>,
)
    requires
        expr_code(b, fl, s, l, Expr::Call(n, args)).2 is Ok,
    ensures
        ({
            let (e, m, r) = expr_code(b, fl, s, l, Expr::Call(n, args));
            &&& m.code.len() > 0
            &&& r == Ok::<Op, Seq<u8>>(Op::Ssa((m.code.len() - 1) as usize))
            &&& m.code[m.code.len() - 1] matches StmtV::New(t, ops) && ops.len() == listed(
                *args,
            ).len() && forall|i: int|
                0 <= i < ops.len() ==> (#[trigger] listed(*args)[i] matches Expr::Int(k) ==> ops[i]
                    == Op::Int(k))
        }),
{
    let (s1, r) = s.resolve_type(name_text(b, n));
    lemma_arguments(b, fl, s1, l, *args);
}

/// An assignment ends in the statement that stores the value in the slot of the variable
/// on its left; one to a field ends in the statement that stores the value in a field of
/// that variable's value.
pub proof fn law_assignments_name_their_variable(
    b: Seq<u8>,
    fl: Seq<u64>,
    s: State,
    l: LowV,
    n: Name,
    f: Name,
    k: i64,
)
    requires
        l.slots.len() < usize::MAX,
    ensures
        ({
            let (e, m, r) = stmt_code(b, fl, s, l, SrcStmt::Assign(n, Expr::Int(k)));
            &&& r is Ok
            &&& m.code.len() == l.code.len() + 1
            &&& m.code[l.code.len() as int] matches StmtV::Assign(slot, v) && v == Op::Int(k)
                && slot < m.slots.len() && m.slots[slot as int] == name_text(b, n)
        }),
        ({
            let (e, m, r) = stmt_code(b, fl, s, l, SrcStmt::FieldAssign(n, f, Expr::Int(k)));
            &&& r is Ok
            &&& m.code.len() == l.code.len() + 1
            &&& m.code[l.code.len() as int] matches StmtV::SetField(Op::Slot(slot), sym, v) && v
                == Op::Int(k) && slot < m.slots.len() && m.slots[slot as int] == name_text(b, n)
                && sym == s.intern(s.builtin(id::SYMBOL), name_text(b, f)).1
        }),
{
    lemma_find(l, name_text(b, n), 0);
    assert(expr_code(b, fl, s, l, Expr::Int(k)) == (s, l, Ok::<Op, Seq<u8>>(Op::Int(k))));
}

} // verus!
