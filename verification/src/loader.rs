//! The loader of lowered code in text form.
//!
//! The text begins with a header that names the format and its version. Blank lines
//! and lines that begin with `#` do not count; every other line is a list of words.
//! Each thunk begins with a line that gives the number of its slots and of its
//! statements; one line per statement follows. A method definition is followed by
//! the statements of the method's body.

use std::rc::Rc;
use vstd::prelude::*;
use crate::access;
use crate::bytes::{decimal, decimal_text, push_bytes, push_text, text, told, utf8};
use crate::errors::wrap_msg;
use crate::id;
use crate::interp::{eval, Machine};
use crate::interp_spec::{ActV, MachineV, Status};
use crate::ir::{body_view, code_view, share, stmt_view, Body, BodyV, Op, Stmt, StmtV};
use crate::lexer::{byte_at, span, span_text};
use crate::module::main_offset;
use crate::state::{Runtime, State, Value};
use crate::symbol::intern_bytes;
use crate::value::box_bool;
use crate::words::{
    bits_at, int_at, read_bits, read_int, read_size, rows, rows_view, size_at, split_rows,
};

verus! {

/// The message of an error in the counted line number `line`.
pub open spec fn bad(line: int, msg: Seq<u8>) -> Seq<u8> {
    utf8("lowered format: line ") + decimal((line + 1) as nat) + utf8(": ") + msg
}

/// The first colon from `i` up to `e`, or else `e`.
pub open spec fn colon(b: Seq<u8>, i: int, e: int) -> int
    decreases e - i,
{
    if i >= e || byte_at(b, i) == 58 {
        i
    } else {
        colon(b, i + 1, e)
    }
}

/// The text of a word.
pub open spec fn word_text(b: Seq<u8>, w: (usize, usize)) -> Seq<u8> {
    span_text(b, w.0 as int, w.1 as int)
}

/// A number, or the message that it is none.
pub open spec fn or_bad<T>(x: Option<T>, line: int, msg: &str) -> Result<T, Seq<u8>> {
    match x {
        Some(v) => Ok(v),
        None => Err(bad(line, utf8(msg))),
    }
}

impl State {
    /// The operand that a word stands for: its kind, and after a colon the rest.
    pub open spec fn parse_op(self, b: Seq<u8>, w: (usize, usize), line: int) -> (
        State,
        Result<Op, Seq<u8>>,
    ) {
        let e = w.1 as int;
        let c = colon(b, w.0 as int, e);
        let kind = span_text(b, w.0 as int, c);
        let s = if c < e {
            c + 1
        } else {
            e
        };
        let rest = span_text(b, s, e);
        if kind == utf8("ssa") {
            (
                self,
                match or_bad(size_at(b, s, e), line, "bad ssa") {
                    Ok(n) => Ok(Op::Ssa(n)),
                    Err(m) => Err(m),
                },
            )
        } else if kind == utf8("slot") {
            (
                self,
                match or_bad(size_at(b, s, e), line, "bad slot") {
                    Ok(n) => Ok(Op::Slot(n)),
                    Err(m) => Err(m),
                },
            )
        } else if kind == utf8("int") {
            (
                self,
                match or_bad(int_at(b, s, e), line, "bad int") {
                    Ok(n) => Ok(Op::Int(n)),
                    Err(m) => Err(m),
                },
            )
        } else if kind == utf8("f64") {
            (
                self,
                match or_bad(bits_at(b, s, e), line, "bad f64") {
                    Ok(n) => Ok(Op::Float(n)),
                    Err(m) => Err(m),
                },
            )
        } else if kind == utf8("bool") {
            (self, Ok(Op::Const(self.box_bool(rest == utf8("1")))))
        } else if kind == utf8("nothing") {
            (self, Ok(Op::Const(self.instance_of(self.builtin(id::NOTHING)))))
        } else if kind == utf8("sym") {
            let (s1, sym) = self.intern(self.builtin(id::SYMBOL), rest);
            (s1, Ok(Op::Const(sym)))
        } else if kind == utf8("global") {
            let (s1, sym) = self.intern(self.builtin(id::SYMBOL), rest);
            (s1, Ok(Op::Global(sym)))
        } else if kind == utf8("module") {
            (self, Ok(Op::Const(self.main)))
        } else {
            (
                self,
                Err(bad(line, utf8("unknown operand `") + word_text(b, w) + utf8("`"))),
            )
        }
    }

    /// The operands that the words from `k` on stand for, after those in `done`.
    pub open spec fn parse_ops(
        self,
        b: Seq<u8>,
        ws: Seq<(usize, usize)>,
        k: int,
        line: int,
        done: Seq<Op>,
    ) -> (State, Result<Seq<Op>, Seq<u8>>)
        decreases ws.len() - k,
    {
        if k < 0 || k >= ws.len() {
            (self, Ok(done))
        } else {
            match self.parse_op(b, ws[k], line) {
                (s, Err(m)) => (s, Err(m)),
                (s, Ok(op)) => s.parse_ops(b, ws, k + 1, line, done.push(op)),
            }
        }
    }

    /// The operand of a line with one.
    pub open spec fn one_op(self, b: Seq<u8>, ws: Seq<(usize, usize)>, line: int) -> (
        State,
        Result<Op, Seq<u8>>,
    ) {
        if ws.len() != 2 {
            (self, Err(bad(line, utf8("wrong operand count"))))
        } else {
            self.parse_op(b, ws[1], line)
        }
    }
}

/// The number of a line with one.
pub open spec fn one_size(b: Seq<u8>, ws: Seq<(usize, usize)>, line: int, msg: &str) -> Result<
    usize,
    Seq<u8>,
> {
    if ws.len() != 2 {
        Err(bad(line, utf8("wrong operand count")))
    } else {
        or_bad(size_at(b, ws[1].0 as int, ws[1].1 as int), line, msg)
    }
}

impl State {
    /// The statement of a line without a nested body.
    #[verifier::opaque]
    pub open spec fn parse_simple(self, b: Seq<u8>, ws: Seq<(usize, usize)>, line: int) -> (
        State,
        Result<StmtV, Seq<u8>>,
    ) {
        let head = word_text(b, ws[0]);
        if head == utf8("value") {
            match self.one_op(b, ws, line) {
                (s, Ok(op)) => (s, Ok(StmtV::Value(op))),
                (s, Err(m)) => (s, Err(m)),
            }
        } else if head == utf8("call") {
            match self.parse_ops(b, ws, 1, line, Seq::empty()) {
                (s, Ok(ops)) => (s, Ok(StmtV::CallValue(ops))),
                (s, Err(m)) => (s, Err(m)),
            }
        } else if head == utf8("assign") {
            if ws.len() != 3 {
                (self, Err(bad(line, utf8("wrong operand count"))))
            } else {
                match or_bad(size_at(b, ws[1].0 as int, ws[1].1 as int), line, "bad slot") {
                    Err(m) => (self, Err(m)),
                    Ok(k) => match self.parse_op(b, ws[2], line) {
                        (s, Ok(op)) => (s, Ok(StmtV::Assign(k, op))),
                        (s, Err(m)) => (s, Err(m)),
                    },
                }
            }
        } else if head == utf8("assigncall") {
            if ws.len() < 2 {
                (self, Err(bad(line, utf8("missing slot"))))
            } else {
                match or_bad(size_at(b, ws[1].0 as int, ws[1].1 as int), line, "bad slot") {
                    Err(m) => (self, Err(m)),
                    Ok(k) => match self.parse_ops(b, ws, 2, line, Seq::empty()) {
                        (s, Ok(ops)) => (s, Ok(StmtV::AssignCall(k, ops))),
                        (s, Err(m)) => (s, Err(m)),
                    },
                }
            }
        } else if head == utf8("goto") {
            match one_size(b, ws, line, "bad target") {
                Ok(t) => (self, Ok(StmtV::Goto(t))),
                Err(m) => (self, Err(m)),
            }
        } else if head == utf8("gotoifnot") {
            if ws.len() != 3 {
                (self, Err(bad(line, utf8("wrong operand count"))))
            } else {
                match self.parse_op(b, ws[1], line) {
                    (s, Err(m)) => (s, Err(m)),
                    (s, Ok(op)) => match or_bad(
                        size_at(b, ws[2].0 as int, ws[2].1 as int),
                        line,
                        "bad target",
                    ) {
                        Ok(t) => (s, Ok(StmtV::GotoIfNot(op, t))),
                        Err(m) => (s, Err(m)),
                    },
                }
            }
        } else if head == utf8("return") {
            match self.one_op(b, ws, line) {
                (s, Ok(op)) => (s, Ok(StmtV::Return(op))),
                (s, Err(m)) => (s, Err(m)),
            }
        } else if head == utf8("enter") {
            match one_size(b, ws, line, "bad target") {
                Ok(t) => (self, Ok(StmtV::Enter(t))),
                Err(m) => (self, Err(m)),
            }
        } else if head == utf8("leave") {
            match one_size(b, ws, line, "bad count") {
                Ok(n) => (self, Ok(StmtV::Leave(n))),
                Err(m) => (self, Err(m)),
            }
        } else if head == utf8("pop_exception") {
            match self.one_op(b, ws, line) {
                (s, Ok(op)) => (s, Ok(StmtV::PopException(op))),
                (s, Err(m)) => (s, Err(m)),
            }
        } else if head == utf8("the_exception") {
            (self, Ok(StmtV::Caught))
        } else if head == utf8("assigncaught") {
            match one_size(b, ws, line, "bad slot") {
                Ok(k) => (self, Ok(StmtV::AssignCaught(k))),
                Err(m) => (self, Err(m)),
            }
        } else if head == utf8("latestworld") {
            (self, Ok(StmtV::LatestWorld))
        } else if head == utf8("method1") {
            if ws.len() != 2 {
                (self, Err(bad(line, utf8("wrong operand count"))))
            } else {
                let (s, sym) = self.intern(self.builtin(id::SYMBOL), word_text(b, ws[1]));
                (s, Ok(StmtV::MethodFunc(sym)))
            }
        } else {
            (self, Err(bad(line, utf8("unknown statement `") + head + utf8("`"))))
        }
    }

    /// The head of a method definition: the function, the signature, and the numbers
    /// of slots and of statements of its body.
    pub open spec fn parse_method(self, b: Seq<u8>, ws: Seq<(usize, usize)>, line: int) -> (
        State,
        Result<(Op, Op, usize, usize), Seq<u8>>,
    ) {
        if ws.len() != 5 {
            (self, Err(bad(line, utf8("wrong operand count"))))
        } else {
            match self.parse_op(b, ws[1], line) {
                (s, Err(m)) => (s, Err(m)),
                (s, Ok(f)) => match s.parse_op(b, ws[2], line) {
                    (s2, Err(m)) => (s2, Err(m)),
                    (s2, Ok(sig)) => match or_bad(
                        size_at(b, ws[3].0 as int, ws[3].1 as int),
                        line,
                        "bad nslots",
                    ) {
                        Err(m) => (s2, Err(m)),
                        Ok(nslots) => match or_bad(
                            size_at(b, ws[4].0 as int, ws[4].1 as int),
                            line,
                            "bad nstmts",
                        ) {
                            Err(m) => (s2, Err(m)),
                            Ok(n) => (s2, Ok((f, sig, nslots, n))),
                        },
                    },
                },
            }
        }
    }

    /// The `n` statements from line `pos` on, after those in `done`, and the next
    /// line.
    #[verifier::opaque]
    pub open spec fn parse_stmts(
        self,
        b: Seq<u8>,
        rs: Seq<Seq<(usize, usize)>>,
        done: Seq<StmtV>,
        pos: int,
        n: nat,
    ) -> (State, int, Result<Seq<StmtV>, Seq<u8>>)
        decreases (if pos < rs.len() { rs.len() - pos } else { 0 }),
    {
        if n == 0 {
            (self, pos, Ok(done))
        } else if pos < 0 || pos >= rs.len() {
            (self, pos, Err(bad(pos, utf8("unexpected end of input"))))
        } else if word_text(b, rs[pos][0]) != utf8("method3") {
            match self.parse_simple(b, rs[pos], pos) {
                (s, Err(m)) => (s, pos + 1, Err(m)),
                (s, Ok(x)) => s.parse_stmts(b, rs, done.push(x), pos + 1, (n - 1) as nat),
            }
        } else {
            match self.parse_method(b, rs[pos], pos) {
                (s, Err(m)) => (s, pos + 1, Err(m)),
                (s, Ok((f, sig, nslots, k))) => match s.parse_stmts(
                    b,
                    rs,
                    Seq::empty(),
                    pos + 1,
                    k as nat,
                ) {
                    (s1, p1, Err(m)) => (s1, p1, Err(m)),
                    (s1, p1, Ok(code)) => s1.parse_stmts(
                        b,
                        rs,
                        done.push(StmtV::MethodDef(f, sig, BodyV { nslots, code })),
                        if p1 > pos {
                            p1
                        } else {
                            pos + 1
                        },
                        (n - 1) as nat,
                    ),
                },
            }
        }
    }

    /// The thunks from line `pos` on, after those in `done`.
    pub open spec fn parse_thunks(
        self,
        b: Seq<u8>,
        rs: Seq<Seq<(usize, usize)>>,
        done: Seq<BodyV>,
        pos: int,
    ) -> (State, Result<Seq<BodyV>, Seq<u8>>)
        decreases (if pos < rs.len() { rs.len() - pos } else { 0 }),
    {
        if pos < 0 || pos >= rs.len() {
            (self, Ok(done))
        } else if rs[pos].len() != 3 || word_text(b, rs[pos][0]) != utf8("thunk") {
            (self, Err(bad(pos, utf8("expected `thunk <nslots> <nstmts>`"))))
        } else {
            match or_bad(size_at(b, rs[pos][1].0 as int, rs[pos][1].1 as int), pos, "bad nslots") {
                Err(m) => (self, Err(m)),
                Ok(nslots) => match or_bad(
                    size_at(b, rs[pos][2].0 as int, rs[pos][2].1 as int),
                    pos,
                    "bad nstmts",
                ) {
                    Err(m) => (self, Err(m)),
                    Ok(n) => match self.parse_stmts(b, rs, Seq::empty(), pos + 1, n as nat) {
                        (s1, p1, Err(m)) => (s1, Err(m)),
                        (s1, p1, Ok(code)) => s1.parse_thunks(
                            b,
                            rs,
                            done.push(BodyV { nslots, code }),
                            if p1 > pos {
                                p1
                            } else {
                                pos + 1
                            },
                        ),
                    },
                },
            }
        }
    }
}

/// Whether a line is the header of a format that is understood.
pub open spec fn is_header(b: Seq<u8>, ws: Seq<(usize, usize)>) -> bool {
    ws.len() >= 2 && word_text(b, ws[0]) == utf8("RUJU_LOWERED") && word_text(b, ws[1]) == utf8("1")
}

impl State {
    /// The thunks of a lowered text.
    pub open spec fn parse_lowered(self, b: Seq<u8>) -> (State, Result<Seq<BodyV>, Seq<u8>>) {
        let rs = rows(b, 0);
        if rs.len() == 0 {
            (self, Err(utf8("lowered format: empty input")))
        } else if !is_header(b, rs[0]) {
            (
                self,
                Err(
                    utf8("lowered format: bad header `") + span_text(
                        b,
                        rs[0][0].0 as int,
                        rs[0].last().1 as int,
                    ) + utf8("` (expected RUJU_LOWERED 1)"),
                ),
            )
        } else {
            self.parse_thunks(b, rs, Seq::empty(), 1)
        }
    }
}

/// The message of an error in the counted line number `line`.
fn err(line: usize, msg: &[u8]) -> (r: Vec<u8>)
    requires
        line < usize::MAX,
    ensures
        r@ == bad(line as int, msg@),
{
    let mut m: Vec<u8> = text("lowered format: line ");
    let d: Vec<u8> = decimal_text(line as u64 + 1);
    push_bytes(&mut m, d.as_slice());
    push_text(&mut m, ": ");
    push_bytes(&mut m, msg);
    m
}

/// The same for a constant message.
fn err_text(line: usize, msg: &str) -> (r: Vec<u8>)
    requires
        line < usize::MAX,
    ensures
        r@ == bad(line as int, utf8(msg)),
{
    err(line, msg.as_bytes())
}

/// The first colon from `s` up to `e`, or else `e`.
fn find_colon(b: &[u8], s: usize, e: usize) -> (r: usize)
    requires
        s <= e,
    ensures
        r == colon(b@, s as int, e as int),
        s <= r <= e,
{
    let mut i: usize = s;
    while i < e
        invariant
            s <= i <= e,
            colon(b@, s as int, e as int) == colon(b@, i as int, e as int),
        decreases e - i,
    {
        if i < b.len() {
            if b[i] == 58 {
                return i;
            }
        }
        i = i + 1;
    }
    i
}

/// Whether the text from `s` up to `e` is `w`.
fn is_text(b: &[u8], s: usize, e: usize, w: &str) -> (r: bool)
    ensures
        r == (span_text(b@, s as int, e as int) == utf8(w)),
{
    let t: Vec<u8> = span(b, s, e);
    crate::bytes::same_bytes(&t, w.as_bytes())
}

/// A symbol for the text from `s` up to `e`.
fn intern_span(rt: &mut Runtime, b: &[u8], s: usize, e: usize) -> (r: u32)
    ensures
        (final(rt)@, r) == old(rt)@.intern(
            old(rt)@.builtin(id::SYMBOL),
            span_text(b@, s as int, e as int),
        ),
{
    let st: u32 = access::builtin(rt, id::SYMBOL);
    let t: Vec<u8> = span(b, s, e);
    intern_bytes(rt, st, t.as_slice())
}

/// The size from `s` up to `e`, or a message.
fn size_or(b: &[u8], w: (usize, usize), line: usize, msg: &str) -> (r: Result<usize, Vec<u8>>)
    requires
        line < usize::MAX,
    ensures
        told(r) == or_bad(size_at(b@, w.0 as int, w.1 as int), line as int, msg),
{
    match read_size(b, w.0, w.1) {
        Some(n) => Ok(n),
        None => Err(err_text(line, msg)),
    }
}

/// Parses an operand.
fn parse_op(rt: &mut Runtime, b: &[u8], w: (usize, usize), line: usize) -> (r: Result<Op, Vec<u8>>)
    requires
        line < usize::MAX,
    ensures
        (final(rt)@, told(r)) == old(rt)@.parse_op(b@, w, line as int),
{
    let e: usize = w.1;
    let c: usize = if w.0 <= e {
        find_colon(b, w.0, e)
    } else {
        w.0
    };
    let s: usize = if c < e {
        c + 1
    } else {
        e
    };
    if is_text(b, w.0, c, "ssa") {
        match size_or(b, (s, e), line, "bad ssa") {
            Ok(n) => Ok(Op::Ssa(n)),
            Err(m) => Err(m),
        }
    } else if is_text(b, w.0, c, "slot") {
        match size_or(b, (s, e), line, "bad slot") {
            Ok(n) => Ok(Op::Slot(n)),
            Err(m) => Err(m),
        }
    } else if is_text(b, w.0, c, "int") {
        match read_int(b, s, e) {
            Some(n) => Ok(Op::Int(n)),
            None => Err(err_text(line, "bad int")),
        }
    } else if is_text(b, w.0, c, "f64") {
        match read_bits(b, s, e) {
            Some(n) => Ok(Op::Float(n)),
            None => Err(err_text(line, "bad f64")),
        }
    } else if is_text(b, w.0, c, "bool") {
        let v: Value = box_bool(rt, is_text(b, s, e, "1"));
        Ok(Op::Const(v.0))
    } else if is_text(b, w.0, c, "nothing") {
        Ok(Op::Const(access::nothing_instance(rt)))
    } else if is_text(b, w.0, c, "sym") {
        Ok(Op::Const(intern_span(rt, b, s, e)))
    } else if is_text(b, w.0, c, "global") {
        Ok(Op::Global(intern_span(rt, b, s, e)))
    } else if is_text(b, w.0, c, "module") {
        Ok(Op::Const(main_offset(rt)))
    } else {
        let mut m: Vec<u8> = text("unknown operand `");
        let t: Vec<u8> = span(b, w.0, w.1);
        push_bytes(&mut m, t.as_slice());
        push_text(&mut m, "`");
        Err(err(line, m.as_slice()))
    }
}

/// The operands, as told.
pub open spec fn told_ops(r: Result<Vec<Op>, Vec<u8>>) -> Result<Seq<Op>, Seq<u8>> {
    match r {
        Ok(v) => Ok(v@),
        Err(m) => Err(m@),
    }
}

/// Parses the operands from word `k0` on.
fn parse_ops(rt: &mut Runtime, b: &[u8], ws: &Vec<(usize, usize)>, k0: usize, line: usize) -> (r:
    Result<Vec<Op>, Vec<u8>>)
    requires
        line < usize::MAX,
    ensures
        (final(rt)@, told_ops(r)) == old(rt)@.parse_ops(
            b@,
            ws@,
            k0 as int,
            line as int,
            Seq::empty(),
        ),
{
    let mut ops: Vec<Op> = Vec::new();
    let mut k: usize = k0;
    assert(ops@ =~= Seq::<Op>::empty());
    while k < ws.len()
        invariant
            line < usize::MAX,
            old(rt)@.parse_ops(b@, ws@, k0 as int, line as int, Seq::empty()) == rt@.parse_ops(
                b@,
                ws@,
                k as int,
                line as int,
                ops@,
            ),
        decreases ws.len() - k,
    {
        match parse_op(rt, b, ws[k], line) {
            Ok(op) => ops.push(op),
            Err(m) => {
                return Err(m);
            },
        }
        k = k + 1;
    }
    Ok(ops)
}

/// Parses the operand of a line with one.
fn one_operand(rt: &mut Runtime, b: &[u8], ws: &Vec<(usize, usize)>, line: usize) -> (r: Result<
    Op,
    Vec<u8>,
>)
    requires
        line < usize::MAX,
    ensures
        (final(rt)@, told(r)) == old(rt)@.one_op(b@, ws@, line as int),
{
    if ws.len() != 2 {
        return Err(err_text(line, "wrong operand count"));
    }
    parse_op(rt, b, ws[1], line)
}

/// Parses the number of a line with one.
fn one_number(b: &[u8], ws: &Vec<(usize, usize)>, line: usize, msg: &str) -> (r: Result<
    usize,
    Vec<u8>,
>)
    requires
        line < usize::MAX,
    ensures
        told(r) == one_size(b@, ws@, line as int, msg),
{
    if ws.len() != 2 {
        return Err(err_text(line, "wrong operand count"));
    }
    size_or(b, ws[1], line, msg)
}

/// The statement, as told.
pub open spec fn told_stmt(r: Result<Stmt, Vec<u8>>) -> Result<StmtV, Seq<u8>> {
    match r {
        Ok(x) => Ok(stmt_view(x)),
        Err(m) => Err(m@),
    }
}

/// Parses a line without a nested body.
#[verifier::rlimit(60)]
fn parse_simple(rt: &mut Runtime, b: &[u8], ws: &Vec<(usize, usize)>, line: usize) -> (r: Result<
    Stmt,
    Vec<u8>,
>)
    requires
        ws.len() > 0,
        line < usize::MAX,
    ensures
        (final(rt)@, told_stmt(r)) == old(rt)@.parse_simple(b@, ws@, line as int),
{
    proof {
        reveal(State::parse_simple);
    }
    let h: (usize, usize) = ws[0];
    if is_text(b, h.0, h.1, "value") {
        match one_operand(rt, b, ws, line) {
            Ok(op) => Ok(Stmt::Value(op)),
            Err(m) => Err(m),
        }
    } else if is_text(b, h.0, h.1, "call") {
        match parse_ops(rt, b, ws, 1, line) {
            Ok(ops) => Ok(Stmt::CallValue(ops)),
            Err(m) => Err(m),
        }
    } else if is_text(b, h.0, h.1, "assign") {
        if ws.len() != 3 {
            return Err(err_text(line, "wrong operand count"));
        }
        match size_or(b, ws[1], line, "bad slot") {
            Err(m) => Err(m),
            Ok(k) => match parse_op(rt, b, ws[2], line) {
                Ok(op) => Ok(Stmt::Assign(k, op)),
                Err(m) => Err(m),
            },
        }
    } else if is_text(b, h.0, h.1, "assigncall") {
        if ws.len() < 2 {
            return Err(err_text(line, "missing slot"));
        }
        match size_or(b, ws[1], line, "bad slot") {
            Err(m) => Err(m),
            Ok(k) => match parse_ops(rt, b, ws, 2, line) {
                Ok(ops) => Ok(Stmt::AssignCall(k, ops)),
                Err(m) => Err(m),
            },
        }
    } else if is_text(b, h.0, h.1, "goto") {
        match one_number(b, ws, line, "bad target") {
            Ok(t) => Ok(Stmt::Goto(t)),
            Err(m) => Err(m),
        }
    } else if is_text(b, h.0, h.1, "gotoifnot") {
        if ws.len() != 3 {
            return Err(err_text(line, "wrong operand count"));
        }
        match parse_op(rt, b, ws[1], line) {
            Err(m) => Err(m),
            Ok(op) => match size_or(b, ws[2], line, "bad target") {
                Ok(t) => Ok(Stmt::GotoIfNot(op, t)),
                Err(m) => Err(m),
            },
        }
    } else if is_text(b, h.0, h.1, "return") {
        match one_operand(rt, b, ws, line) {
            Ok(op) => Ok(Stmt::Return(op)),
            Err(m) => Err(m),
        }
    } else if is_text(b, h.0, h.1, "enter") {
        match one_number(b, ws, line, "bad target") {
            Ok(t) => Ok(Stmt::Enter(t)),
            Err(m) => Err(m),
        }
    } else if is_text(b, h.0, h.1, "leave") {
        match one_number(b, ws, line, "bad count") {
            Ok(n) => Ok(Stmt::Leave(n)),
            Err(m) => Err(m),
        }
    } else if is_text(b, h.0, h.1, "pop_exception") {
        match one_operand(rt, b, ws, line) {
            Ok(op) => Ok(Stmt::PopException(op)),
            Err(m) => Err(m),
        }
    } else if is_text(b, h.0, h.1, "the_exception") {
        Ok(Stmt::Caught)
    } else if is_text(b, h.0, h.1, "assigncaught") {
        match one_number(b, ws, line, "bad slot") {
            Ok(k) => Ok(Stmt::AssignCaught(k)),
            Err(m) => Err(m),
        }
    } else if is_text(b, h.0, h.1, "latestworld") {
        Ok(Stmt::LatestWorld)
    } else if is_text(b, h.0, h.1, "method1") {
        if ws.len() != 2 {
            return Err(err_text(line, "wrong operand count"));
        }
        Ok(Stmt::MethodFunc(intern_span(rt, b, ws[1].0, ws[1].1)))
    } else {
        let mut m: Vec<u8> = text("unknown statement `");
        let t: Vec<u8> = span(b, h.0, h.1);
        push_bytes(&mut m, t.as_slice());
        push_text(&mut m, "`");
        Err(err(line, m.as_slice()))
    }
}

/// Parses the head of a method definition.
fn parse_method(rt: &mut Runtime, b: &[u8], ws: &Vec<(usize, usize)>, line: usize) -> (r: Result<
    (Op, Op, usize, usize),
    Vec<u8>,
>)
    requires
        line < usize::MAX,
    ensures
        (final(rt)@, told(r)) == old(rt)@.parse_method(b@, ws@, line as int),
{
    if ws.len() != 5 {
        return Err(err_text(line, "wrong operand count"));
    }
    let f: Op = match parse_op(rt, b, ws[1], line) {
        Ok(op) => op,
        Err(m) => {
            return Err(m);
        },
    };
    let sig: Op = match parse_op(rt, b, ws[2], line) {
        Ok(op) => op,
        Err(m) => {
            return Err(m);
        },
    };
    match size_or(b, ws[3], line, "bad nslots") {
        Err(m) => Err(m),
        Ok(nslots) => match size_or(b, ws[4], line, "bad nstmts") {
            Err(m) => Err(m),
            Ok(n) => Ok((f, sig, nslots, n)),
        },
    }
}

/// The statements and the next line, as told.
pub open spec fn told_code(r: Result<Vec<Stmt>, Vec<u8>>) -> Result<Seq<StmtV>, Seq<u8>> {
    match r {
        Ok(v) => Ok(code_view(v@)),
        Err(m) => Err(m@),
    }
}

/// Parses `n0` statements from line `pos` on, with the bodies of methods.
#[verifier::rlimit(40)]
fn parse_stmts(
    rt: &mut Runtime,
    b: &[u8],
    rs: &Vec<Vec<(usize, usize)>>,
    pos: &mut usize,
    n0: usize,
) -> (r: Result<Vec<Stmt>, Vec<u8>>)
    requires
        *old(pos) <= rs.len() < usize::MAX,
        forall|i: int| 0 <= i < rs.len() ==> (#[trigger] rs@[i]).len() > 0,
    ensures
        (final(rt)@, *final(pos) as int, told_code(r)) == old(rt)@.parse_stmts(
            b@,
            rows_view(rs@),
            Seq::empty(),
            *old(pos) as int,
            n0 as nat,
        ),
        *old(pos) <= *final(pos) <= rs.len(),
    decreases rs.len() - *old(pos),
{
    let mut code: Vec<Stmt> = Vec::new();
    let mut n: usize = n0;
    let ghost rv = rows_view(rs@);
    assert(code_view(code@) =~= Seq::<StmtV>::empty());
    loop
        invariant
            *old(pos) <= *pos <= rs.len() < usize::MAX,
            forall|i: int| 0 <= i < rs.len() ==> (#[trigger] rs@[i]).len() > 0,
            rv == rows_view(rs@),
            old(rt)@.parse_stmts(b@, rv, Seq::empty(), *old(pos) as int, n0 as nat)
                == rt@.parse_stmts(b@, rv, code_view(code@), *pos as int, n as nat),
        decreases n,
    {
        proof {
            reveal(State::parse_stmts);
        }
        if n == 0 {
            return Ok(code);
        }
        let line: usize = *pos;
        if line >= rs.len() {
            return Err(err_text(line, "unexpected end of input"));
        }
        let ws: &Vec<(usize, usize)> = &rs[line];
        assert(rv[line as int] == ws@);
        let h: (usize, usize) = ws[0];
        let ghost before = code_view(code@);
        *pos = line + 1;
        if !is_text(b, h.0, h.1, "method3") {
            match parse_simple(rt, b, ws, line) {
                Err(m) => {
                    return Err(m);
                },
                Ok(x) => {
                    code.push(x);
                    assert(code_view(code@) =~= before.push(stmt_view(x)));
                },
            }
        } else {
            match parse_method(rt, b, ws, line) {
                Err(m) => {
                    return Err(m);
                },
                Ok((f, sig, nslots, k)) => match parse_stmts(rt, b, rs, pos, k) {
                    Err(m) => {
                        return Err(m);
                    },
                    Ok(inner) => {
                        let body: Body = Body { nslots, code: inner };
                        let x: Stmt = Stmt::MethodDef(f, sig, Rc::new(body));
                        proof {
                            assert(stmt_view(x) == StmtV::MethodDef(f, sig, body_view(body)));
                        }
                        code.push(x);
                        assert(code_view(code@) =~= before.push(stmt_view(x)));
                    },
                },
            }
        }
        n = n - 1;
    }
}

/// The pictures of some bodies.
pub open spec fn bodies_view(v: Seq<Rc<Body>>) -> Seq<BodyV> {
    Seq::new(v.len(), |i: int| body_view(*v[i]))
}

/// The thunks, as told.
pub open spec fn told_bodies(r: Result<Vec<Rc<Body>>, Vec<u8>>) -> Result<Seq<BodyV>, Seq<u8>> {
    match r {
        Ok(v) => Ok(bodies_view(v@)),
        Err(m) => Err(m@),
    }
}

/// The lines that count have words, and are fewer than the bytes.
proof fn lemma_rows_have_words(b: Seq<u8>, i: int)
    requires
        0 <= i,
    ensures
        2 * rows(b, i).len() <= (if i <= b.len() { b.len() - i + 1 } else { 0 }),
        forall|k: int| 0 <= k < rows(b, i).len() ==> (#[trigger] rows(b, i)[k]).len() > 0,
    decreases (if i < b.len() { b.len() - i } else { 0 }),
{
    if 0 <= i < b.len() && crate::lexer::line_end(b, i) >= i {
        lemma_rows_have_words(b, crate::lexer::line_end(b, i) + 1);
    }
}

/// Parses a lowered text into thunks.
pub fn parse(rt: &mut Runtime, src: &[u8]) -> (r: Result<Vec<Rc<Body>>, Vec<u8>>)
    ensures
        (final(rt)@, told_bodies(r)) == old(rt)@.parse_lowered(src@),
{
    let rs: Vec<Vec<(usize, usize)>> = split_rows(src);
    let ghost rv = rows_view(rs@);
    proof {
        lemma_rows_have_words(src@, 0);
        assert(src@.len() == src.len());
        assert(rv.len() == rs.len());
        assert forall|i: int| 0 <= i < rs.len() implies (#[trigger] rs@[i]).len() > 0 by {
            assert(rv[i] == rs@[i]@);
        }
    }
    if rs.len() == 0 {
        return Err(text("lowered format: empty input"));
    }
    let h: &Vec<(usize, usize)> = &rs[0];
    assert(rv[0] == h@);
    if !(h.len() >= 2 && is_text(src, h[0].0, h[0].1, "RUJU_LOWERED") && is_text(
        src,
        h[1].0,
        h[1].1,
        "1",
    )) {
        let mut m: Vec<u8> = text("lowered format: bad header `");
        let t: Vec<u8> = span(src, h[0].0, h[h.len() - 1].1);
        push_bytes(&mut m, t.as_slice());
        push_text(&mut m, "` (expected RUJU_LOWERED 1)");
        return Err(m);
    }
    let mut thunks: Vec<Rc<Body>> = Vec::new();
    let mut pos: usize = 1;
    assert(bodies_view(thunks@) =~= Seq::<BodyV>::empty());
    while pos < rs.len()
        invariant
            pos <= rs.len() < usize::MAX,
            forall|i: int| 0 <= i < rs.len() ==> (#[trigger] rs@[i]).len() > 0,
            rv == rows_view(rs@),
            old(rt)@.parse_lowered(src@) == rt@.parse_thunks(
                src@,
                rv,
                bodies_view(thunks@),
                pos as int,
            ),
        decreases rs.len() - pos,
    {
        let line: usize = pos;
        let ws: &Vec<(usize, usize)> = &rs[line];
        assert(rv[line as int] == ws@);
        if ws.len() != 3 || !is_text(src, ws[0].0, ws[0].1, "thunk") {
            return Err(err_text(line, "expected `thunk <nslots> <nstmts>`"));
        }
        pos = pos + 1;
        let nslots: usize = match size_or(src, ws[1], line, "bad nslots") {
            Ok(n) => n,
            Err(m) => {
                return Err(m);
            },
        };
        let n: usize = match size_or(src, ws[2], line, "bad nstmts") {
            Ok(n) => n,
            Err(m) => {
                return Err(m);
            },
        };
        match parse_stmts(rt, src, &rs, &mut pos, n) {
            Err(m) => {
                return Err(m);
            },
            Ok(code) => {
                let ghost before = bodies_view(thunks@);
                let body: Body = Body { nslots, code };
                thunks.push(Rc::new(body));
                assert(bodies_view(thunks@) =~= before.push(body_view(body)));
            },
        }
    }
    Ok(thunks)
}

impl State {
    /// Runs the thunks from `i` on, in order, until one pauses or fails; gives the
    /// program that ran last and the next thunk.
    pub open spec fn run_thunks(self, ts: Seq<Rc<Body>>, i: int, m: MachineV) -> (
        State,
        MachineV,
        int,
    )
        decreases ts.len() - i,
    {
        if i < 0 || i >= ts.len() || !(m.status is Returned) {
            (self, m, i)
        } else {
            let (s, m1) = self.begin(ts[i], Seq::empty(), Seq::empty());
            s.run_thunks(ts, i + 1, m1)
        }
    }
}

/// Thunks being run: the program of the current one, and the next one.
pub struct Loading {
    pub thunks: Vec<Rc<Body>>,
    pub next: usize,
    pub machine: Machine,
}

/// Goes on with the next thunks where the current one has returned.
pub fn proceed(rt: &mut Runtime, p: &mut Loading)
    ensures
        final(p).thunks == old(p).thunks,
        (final(rt)@, final(p).machine@, final(p).next as int) == old(rt)@.run_thunks(
            old(p).thunks@,
            old(p).next as int,
            old(p).machine@,
        ),
{
    while p.next < p.thunks.len()
        invariant
            p.thunks == old(p).thunks,
            old(rt)@.run_thunks(old(p).thunks@, old(p).next as int, old(p).machine@)
                == rt@.run_thunks(p.thunks@, p.next as int, p.machine@),
        decreases p.thunks.len() - p.next,
    {
        match p.machine.status {
            Status::Returned(_) => {},
            _ => {
                return;
            },
        }
        let body: Rc<Body> = share(&p.thunks[p.next]);
        p.machine = eval(rt, &body);
        p.next = p.next + 1;
    }
}

/// Parses a lowered text and runs its thunks in order; the result is the value of the
/// last one, or `nothing`. When a thunk pauses, the host answers the request, lets
/// the program run on, and calls [`proceed`].
pub fn load_and_eval(rt: &mut Runtime, src: &[u8]) -> (r: Result<Loading, Value>)
    ensures
        match old(rt)@.parse_lowered(src@) {
            (s, Err(m)) => r is Err && (final(rt)@, r->Err_0.0) == s.error_exception(m),
            (s, Ok(vs)) => r is Ok && bodies_view(r->Ok_0.thunks@) == vs && (
                final(rt)@,
                r->Ok_0.machine@,
                r->Ok_0.next as int,
            ) == s.run_thunks(
                r->Ok_0.thunks@,
                0,
                (MachineV {
                    acts: Seq::empty(),
                    status: Status::Returned(Value(s.instance_of(s.builtin(id::NOTHING)))),
                }),
            ),
        },
{
    match parse(rt, src) {
        Err(m) => Err(wrap_msg(rt, m)),
        Ok(thunks) => {
            let nothing: Value = Value(access::nothing_instance(rt));
            let machine: Machine = Machine { acts: Vec::new(), status: Status::Returned(nothing) };
            assert(machine@.acts =~= Seq::<ActV>::empty());
            let mut p: Loading = Loading { thunks, next: 0, machine };
            proceed(rt, &mut p);
            Ok(p)
        },
    }
}

} // verus!
