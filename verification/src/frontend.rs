//! The front end: source text to a lowered body.
//!
//! Variables become slots in the order in which they first occur. A struct
//! definition takes effect while its program is lowered and adds no code.

use std::rc::Rc;
use vstd::prelude::*;
use crate::access;
use crate::bytes::{push_bytes, push_text, same_bytes, text, told, utf8};
use crate::id;
use crate::interp::{eval, Machine};
use crate::ir::{body_view, code_view, stmt_view, Body, BodyV, Builtin, Op, Stmt, StmtV};
use crate::lexer::{lex, span, span_text, tokens};
use crate::loader::told_ops;
use crate::parser::{parse_program, parse_tokens, Args, BinOp, Block, Expr, Fields, Name, SrcStmt};
use crate::state::{Runtime, State};
use crate::structs::{define_struct_from_source, fields_view, lookup_struct};
use crate::symbol::intern_bytes;

verus! {

/// The largest number of fields of a struct.
pub const MAX_FIELDS: usize = 0xffff_fffe;

/// The operation of a binary operator, and whether its operands change places.
pub open spec fn operation(op: BinOp) -> (Builtin, bool) {
    match op {
        BinOp::Add => (Builtin::Add, false),
        BinOp::Sub => (Builtin::Sub, false),
        BinOp::Mul => (Builtin::Mul, false),
        BinOp::Div => (Builtin::Div, false),
        BinOp::IDiv => (Builtin::IDiv, false),
        BinOp::Rem => (Builtin::Rem, false),
        BinOp::And => (Builtin::And, false),
        BinOp::Or => (Builtin::Or, false),
        BinOp::Xor => (Builtin::Xor, false),
        BinOp::Shl => (Builtin::Shl, false),
        BinOp::Shr => (Builtin::Shr, false),
        BinOp::Ushr => (Builtin::Lshr, false),
        BinOp::Lt => (Builtin::Slt, false),
        BinOp::Le => (Builtin::Sle, false),
        BinOp::Gt => (Builtin::Slt, true),
        BinOp::Ge => (Builtin::Sle, true),
        BinOp::Eq => (Builtin::Eq, false),
        BinOp::Egal => (Builtin::Egal, false),
    }
}

/// The picture of a body under construction.
#[verifier::ext_equal]
pub struct LowV {
    pub code: Seq<StmtV>,
    /// The names of the slots.
    pub slots: Seq<Seq<u8>>,
}

impl LowV {
    /// The first slot from `i` on with the given name, or the next free slot.
    pub open spec fn find(self, name: Seq<u8>, i: int) -> int
        decreases self.slots.len() - i,
    {
        if i < 0 || i >= self.slots.len() || self.slots[i] == name {
            i
        } else {
            self.find(name, i + 1)
        }
    }

    /// The slot of a variable, which is added where it is new.
    pub open spec fn slot(self, name: Seq<u8>) -> (LowV, usize) {
        let k = self.find(name, 0);
        (
            if k < self.slots.len() {
                self
            } else {
                LowV { slots: self.slots.push(name), ..self }
            },
            k as usize,
        )
    }

    /// Adds a statement.
    pub open spec fn emit(self, s: StmtV) -> (LowV, usize) {
        (LowV { code: self.code.push(s), ..self }, self.code.len() as usize)
    }

    /// Sets the target of the jump at `i`.
    pub open spec fn patch(self, i: usize, target: usize) -> LowV {
        match self.code[i as int] {
            StmtV::Goto(_) => LowV { code: self.code.update(i as int, StmtV::Goto(target)), ..self },
            StmtV::GotoIfNot(c, _) => LowV {
                code: self.code.update(i as int, StmtV::GotoIfNot(c, target)),
                ..self
            },
            _ => self,
        }
    }
}

/// The text of a name.
pub open spec fn name_text(b: Seq<u8>, n: Name) -> Seq<u8> {
    span_text(b, n.start as int, n.end as int)
}

/// The identifier of the core type with a name.
pub open spec fn core_type(name: Seq<u8>) -> Option<u32> {
    if name == utf8("Any") {
        Some(id::ANY)
    } else if name == utf8("Number") {
        Some(id::NUMBER)
    } else if name == utf8("Real") {
        Some(id::REAL)
    } else if name == utf8("Integer") {
        Some(id::INTEGER)
    } else if name == utf8("Signed") {
        Some(id::SIGNED)
    } else if name == utf8("Unsigned") {
        Some(id::UNSIGNED)
    } else if name == utf8("AbstractFloat") {
        Some(id::ABSTRACTFLOAT)
    } else if name == utf8("Bool") {
        Some(id::BOOL)
    } else if name == utf8("Int8") {
        Some(id::INT8)
    } else if name == utf8("Int16") {
        Some(id::INT16)
    } else if name == utf8("Int32") {
        Some(id::INT32)
    } else if name == utf8("Int64") || name == utf8("Int") {
        Some(id::INT64)
    } else if name == utf8("UInt8") {
        Some(id::UINT8)
    } else if name == utf8("UInt16") {
        Some(id::UINT16)
    } else if name == utf8("UInt32") {
        Some(id::UINT32)
    } else if name == utf8("UInt64") {
        Some(id::UINT64)
    } else if name == utf8("Float32") {
        Some(id::FLOAT32)
    } else if name == utf8("Float64") {
        Some(id::FLOAT64)
    } else if name == utf8("Char") {
        Some(id::CHAR)
    } else if name == utf8("Nothing") {
        Some(id::NOTHING)
    } else {
        None
    }
}

/// The message for an unknown type name.
pub open spec fn undefined_text(name: Seq<u8>) -> Seq<u8> {
    utf8("UndefVarError: `") + name + utf8("` not defined")
}

impl State {
    /// The type with a name: a core type, or else a struct defined from source.
    pub open spec fn resolve_type(self, name: Seq<u8>) -> (State, Result<u32, Seq<u8>>) {
        match core_type(name) {
            Some(i) => (self, Ok(self.builtin(i))),
            None => {
                let (s, sym) = self.intern(self.builtin(id::SYMBOL), name);
                (
                    s,
                    match s.lookup_struct(sym) {
                        Some(t) => Ok(t),
                        None => Err(undefined_text(name)),
                    },
                )
            },
        }
    }
}

/// The bits of the floating-point literal number `k`; zero where they are missing.
pub open spec fn float_bits(floats: Seq<u64>, k: usize) -> u64 {
    if k < floats.len() {
        floats[k as int]
    } else {
        0
    }
}

/// The code of an expression, and the operand that holds its value.
pub open spec fn expr_code(b: Seq<u8>, fl: Seq<u64>, s: State, l: LowV, e: Expr) -> (
    State,
    LowV,
    Result<Op, Seq<u8>>,
)
    decreases e,
{
    match e {
        Expr::Int(n) => (s, l, Ok(Op::Int(n))),
        Expr::Float(k) => (s, l, Ok(Op::Float(float_bits(fl, k)))),
        Expr::Var(n) => {
            let (l1, k) = l.slot(name_text(b, n));
            (s, l1, Ok(Op::Slot(k)))
        },
        Expr::Bin(op, x, y) => match expr_code(b, fl, s, l, *x) {
            (s1, l1, Err(m)) => (s1, l1, Err(m)),
            (s1, l1, Ok(vx)) => match expr_code(b, fl, s1, l1, *y) {
                (s2, l2, Err(m)) => (s2, l2, Err(m)),
                (s2, l2, Ok(vy)) => {
                    let (f, swap) = operation(op);
                    let args = if swap {
                        seq![vy, vx]
                    } else {
                        seq![vx, vy]
                    };
                    let (l3, k) = l2.emit(StmtV::Call(f, args));
                    (s2, l3, Ok(Op::Ssa(k)))
                },
            },
        },
        Expr::Call(n, args) => match s.resolve_type(name_text(b, n)) {
            (s1, Err(m)) => (s1, l, Err(m)),
            (s1, Ok(t)) => match args_code(b, fl, s1, l, *args) {
                (s2, l2, Err(m)) => (s2, l2, Err(m)),
                (s2, l2, Ok(ops)) => {
                    let (l3, k) = l2.emit(StmtV::New(t, ops));
                    (s2, l3, Ok(Op::Ssa(k)))
                },
            },
        },
        Expr::Field(x, n) => match expr_code(b, fl, s, l, *x) {
            (s1, l1, Err(m)) => (s1, l1, Err(m)),
            (s1, l1, Ok(v)) => {
                let (s2, sym) = s1.intern(s1.builtin(id::SYMBOL), name_text(b, n));
                let (l2, k) = l1.emit(StmtV::GetField(v, sym));
                (s2, l2, Ok(Op::Ssa(k)))
            },
        },
    }
}

/// The code of some arguments, in order, and the operands that hold their values.
pub open spec fn args_code(b: Seq<u8>, fl: Seq<u64>, s: State, l: LowV, a: Args) -> (
    State,
    LowV,
    Result<Seq<Op>, Seq<u8>>,
)
    decreases a,
{
    match a {
        Args::Nil => (s, l, Ok(Seq::empty())),
        Args::Snoc(first, e) => match args_code(b, fl, s, l, *first) {
            (s1, l1, Err(m)) => (s1, l1, Err(m)),
            (s1, l1, Ok(ops)) => match expr_code(b, fl, s1, l1, e) {
                (s2, l2, Err(m)) => (s2, l2, Err(m)),
                (s2, l2, Ok(v)) => (s2, l2, Ok(ops.push(v))),
            },
        },
    }
}

/// The names and types of some field declarations; without a type a field may hold
/// anything.
pub open spec fn fields_of(b: Seq<u8>, s: State, f: Fields) -> (
    State,
    Result<Seq<(Seq<u8>, u32)>, Seq<u8>>,
)
    decreases f,
{
    match f {
        Fields::Nil => (s, Ok(Seq::empty())),
        Fields::Snoc(first, n, ty) => match fields_of(b, s, *first) {
            (s1, Err(m)) => (s1, Err(m)),
            (s1, Ok(fs)) => match ty {
                None => (s1, Ok(fs.push((name_text(b, n), s1.builtin(id::ANY))))),
                Some(tn) => match s1.resolve_type(name_text(b, tn)) {
                    (s2, Err(m)) => (s2, Err(m)),
                    (s2, Ok(t)) => (s2, Ok(fs.push((name_text(b, n), t)))),
                },
            },
        },
    }
}

/// The code of some statements, and the operand that holds the value of the last.
pub open spec fn block_code(b: Seq<u8>, fl: Seq<u64>, s: State, l: LowV, k: Block) -> (
    State,
    LowV,
    Result<Option<Op>, Seq<u8>>,
)
    decreases k,
{
    match k {
        Block::Nil => (s, l, Ok(None)),
        Block::Snoc(first, x) => match block_code(b, fl, s, l, *first) {
            (s1, l1, Err(m)) => (s1, l1, Err(m)),
            (s1, l1, Ok(_)) => stmt_code(b, fl, s1, l1, *x),
        },
    }
}

/// The code of a statement, and the operand that holds its value, if it has one.
pub open spec fn stmt_code(b: Seq<u8>, fl: Seq<u64>, s: State, l: LowV, x: SrcStmt) -> (
    State,
    LowV,
    Result<Option<Op>, Seq<u8>>,
)
    decreases x,
{
    match x {
        SrcStmt::Assign(n, e) => match expr_code(b, fl, s, l, e) {
            (s1, l1, Err(m)) => (s1, l1, Err(m)),
            (s1, l1, Ok(v)) => {
                let (l2, k) = l1.slot(name_text(b, n));
                (s1, l2.emit(StmtV::Assign(k, v)).0, Ok(Some(Op::Slot(k))))
            },
        },
        SrcStmt::FieldAssign(n, f, e) => match expr_code(b, fl, s, l, e) {
            (s1, l1, Err(m)) => (s1, l1, Err(m)),
            (s1, l1, Ok(v)) => {
                let (l2, k) = l1.slot(name_text(b, n));
                let (s2, sym) = s1.intern(s1.builtin(id::SYMBOL), name_text(b, f));
                (s2, l2.emit(StmtV::SetField(Op::Slot(k), sym, v)).0, Ok(Some(v)))
            },
        },
        SrcStmt::Expr(e) => match expr_code(b, fl, s, l, e) {
            (s1, l1, Err(m)) => (s1, l1, Err(m)),
            (s1, l1, Ok(v)) => (s1, l1, Ok(Some(v))),
        },
        SrcStmt::If(c, yes, no) => match expr_code(b, fl, s, l, c) {
            (s1, l1, Err(m)) => (s1, l1, Err(m)),
            (s1, l1, Ok(v)) => {
                let (l2, branch) = l1.emit(StmtV::GotoIfNot(v, 0));
                match block_code(b, fl, s1, l2, yes) {
                    (s3, l3, Err(m)) => (s3, l3, Err(m)),
                    (s3, l3, Ok(_)) => {
                        let (l4, skip) = l3.emit(StmtV::Goto(0));
                        match block_code(b, fl, s3, l4, no) {
                            (s5, l5, Err(m)) => (s5, l5, Err(m)),
                            (s5, l5, Ok(_)) => (
                                s5,
                                l5.patch(branch, l4.code.len() as usize).patch(
                                    skip,
                                    l5.code.len() as usize,
                                ),
                                Ok(None),
                            ),
                        }
                    },
                }
            },
        },
        SrcStmt::While(c, body) => match expr_code(b, fl, s, l, c) {
            (s1, l1, Err(m)) => (s1, l1, Err(m)),
            (s1, l1, Ok(v)) => {
                let (l2, branch) = l1.emit(StmtV::GotoIfNot(v, 0));
                match block_code(b, fl, s1, l2, body) {
                    (s3, l3, Err(m)) => (s3, l3, Err(m)),
                    (s3, l3, Ok(_)) => {
                        let (l4, _) = l3.emit(StmtV::Goto(l.code.len() as usize));
                        (s3, l4.patch(branch, l4.code.len() as usize), Ok(None))
                    },
                }
            },
        },
        SrcStmt::StructDef(n, mutabl, f) => match fields_of(b, s, f) {
            (s1, Err(m)) => (s1, l, Err(m)),
            (s1, Ok(fs)) => if fs.len() > MAX_FIELDS {
                (s1, l, Err(utf8("too many fields")))
            } else {
                match s1.define_struct_from_source(name_text(b, n), fs, mutabl) {
                    (s2, Err(m)) => (s2, l, Err(m)),
                    (s2, Ok(_)) => (s2, l, Ok(None)),
                }
            },
        },
    }
}

/// The body of a program: its code, and the return of its value or of zero.
pub open spec fn program_code(b: Seq<u8>, fl: Seq<u64>, s: State, p: Block) -> (
    State,
    Result<BodyV, Seq<u8>>,
) {
    match block_code(b, fl, s, LowV { code: Seq::empty(), slots: Seq::empty() }, p) {
        (s1, _, Err(m)) => (s1, Err(m)),
        (s1, l, Ok(last)) => {
            let v = match last {
                Some(v) => v,
                None => Op::Int(0),
            };
            (
                s1,
                Ok(
                    BodyV {
                        nslots: l.slots.len() as usize,
                        code: l.code.push(StmtV::Return(v)),
                    },
                ),
            )
        },
    }
}

impl State {
    /// The body that a source text stands for.
    pub open spec fn lower_source(self, b: Seq<u8>, fl: Seq<u64>) -> (
        State,
        Result<BodyV, Seq<u8>>,
    ) {
        match tokens(b, 0, 0) {
            Err(m) => (self, Err(m)),
            Ok(ts) => match parse_tokens(b, ts) {
                Err(m) => (self, Err(m)),
                Ok(p) => program_code(b, fl, self, p),
            },
        }
    }
}

/// A body under construction.
struct Lower {
    code: Vec<Stmt>,
    slots: Vec<Vec<u8>>,
}

/// The contents of some texts.
spec fn texts(v: Seq<Vec<u8>>) -> Seq<Seq<u8>> {
    Seq::new(v.len(), |i: int| v[i]@)
}

impl View for Lower {
    type V = LowV;

    closed spec fn view(&self) -> LowV {
        LowV { code: code_view(self.code@), slots: texts(self.slots@) }
    }
}

/// The operation of a binary operator, and whether its operands change places.
fn binop(op: BinOp) -> (r: (Builtin, bool))
    ensures
        r == operation(op),
{
    match op {
        BinOp::Add => (Builtin::Add, false),
        BinOp::Sub => (Builtin::Sub, false),
        BinOp::Mul => (Builtin::Mul, false),
        BinOp::Div => (Builtin::Div, false),
        BinOp::IDiv => (Builtin::IDiv, false),
        BinOp::Rem => (Builtin::Rem, false),
        BinOp::And => (Builtin::And, false),
        BinOp::Or => (Builtin::Or, false),
        BinOp::Xor => (Builtin::Xor, false),
        BinOp::Shl => (Builtin::Shl, false),
        BinOp::Shr => (Builtin::Shr, false),
        BinOp::Ushr => (Builtin::Lshr, false),
        BinOp::Lt => (Builtin::Slt, false),
        BinOp::Le => (Builtin::Sle, false),
        BinOp::Gt => (Builtin::Slt, true),
        BinOp::Ge => (Builtin::Sle, true),
        BinOp::Eq => (Builtin::Eq, false),
        BinOp::Egal => (Builtin::Egal, false),
    }
}

impl Lower {
    /// The slot of a variable.
    fn slot(&mut self, name: Vec<u8>) -> (r: usize)
        ensures
            (final(self)@, r) == old(self)@.slot(name@),
    {
        let ghost l = self@;
        let mut k: usize = 0;
        while k < self.slots.len()
            invariant
                k <= self.slots.len(),
                self@ == l,
                *self == *old(self),
                l.find(name@, 0) == l.find(name@, k as int),
            decreases self.slots.len() - k,
        {
            assert(l.slots[k as int] == self.slots@[k as int]@);
            if same_bytes(&self.slots[k], name.as_slice()) {
                return k;
            }
            k = k + 1;
        }
        self.slots.push(name);
        assert(self@ =~= LowV { slots: l.slots.push(name@), ..l });
        k
    }

    /// Adds a statement.
    fn emit(&mut self, s: Stmt) -> (r: usize)
        ensures
            (final(self)@, r) == old(self)@.emit(stmt_view(s)),
            r == old(self)@.code.len(),
    {
        let ghost l = self@;
        let k: usize = self.code.len();
        self.code.push(s);
        assert(self@ =~= LowV { code: l.code.push(stmt_view(s)), ..l });
        k
    }

    /// The number of statements.
    fn len(&self) -> (r: usize)
        ensures
            r == self@.code.len(),
    {
        self.code.len()
    }

    /// Sets the target of the jump at `i`.
    fn patch(&mut self, i: usize, target: usize)
        requires
            i < old(self)@.code.len(),
        ensures
            final(self)@ == old(self)@.patch(i, target),
    {
        let ghost l = self@;
        assert(l.code[i as int] == stmt_view(self.code@[i as int]));
        match self.code[i] {
            Stmt::Goto(_) => {
                self.code.set(i, Stmt::Goto(target));
                assert(self@ =~= LowV {
                    code: l.code.update(i as int, StmtV::Goto(target)),
                    ..l
                });
            },
            Stmt::GotoIfNot(c, _) => {
                self.code.set(i, Stmt::GotoIfNot(c, target));
                assert(self@ =~= LowV {
                    code: l.code.update(i as int, StmtV::GotoIfNot(c, target)),
                    ..l
                });
            },
            _ => {},
        }
    }
}

/// The text of a name.
fn name_of(b: &[u8], n: Name) -> (r: Vec<u8>)
    ensures
        r@ == name_text(b@, n),
{
    span(b, n.start, n.end)
}

/// Whether `name` is the text `w`.
fn is_name(name: &Vec<u8>, w: &str) -> (r: bool)
    ensures
        r == (name@ == utf8(w)),
{
    same_bytes(name, w.as_bytes())
}

/// The identifier of the core type with a name.
fn core_type_id(name: &Vec<u8>) -> (r: Option<u32>)
    ensures
        r == core_type(name@),
{
    if is_name(name, "Any") {
        Some(id::ANY)
    } else if is_name(name, "Number") {
        Some(id::NUMBER)
    } else if is_name(name, "Real") {
        Some(id::REAL)
    } else if is_name(name, "Integer") {
        Some(id::INTEGER)
    } else if is_name(name, "Signed") {
        Some(id::SIGNED)
    } else if is_name(name, "Unsigned") {
        Some(id::UNSIGNED)
    } else if is_name(name, "AbstractFloat") {
        Some(id::ABSTRACTFLOAT)
    } else if is_name(name, "Bool") {
        Some(id::BOOL)
    } else if is_name(name, "Int8") {
        Some(id::INT8)
    } else if is_name(name, "Int16") {
        Some(id::INT16)
    } else if is_name(name, "Int32") {
        Some(id::INT32)
    } else if is_name(name, "Int64") || is_name(name, "Int") {
        Some(id::INT64)
    } else if is_name(name, "UInt8") {
        Some(id::UINT8)
    } else if is_name(name, "UInt16") {
        Some(id::UINT16)
    } else if is_name(name, "UInt32") {
        Some(id::UINT32)
    } else if is_name(name, "UInt64") {
        Some(id::UINT64)
    } else if is_name(name, "Float32") {
        Some(id::FLOAT32)
    } else if is_name(name, "Float64") {
        Some(id::FLOAT64)
    } else if is_name(name, "Char") {
        Some(id::CHAR)
    } else if is_name(name, "Nothing") {
        Some(id::NOTHING)
    } else {
        None
    }
}

/// The type with a name: a core type, or else a struct defined from source.
fn resolve_type(rt: &mut Runtime, name: &Vec<u8>) -> (r: Result<u32, Vec<u8>>)
    ensures
        (final(rt)@, told(r)) == old(rt)@.resolve_type(name@),
{
    match core_type_id(name) {
        Some(i) => Ok(access::builtin(rt, i)),
        None => {
            let st: u32 = access::builtin(rt, id::SYMBOL);
            let sym: u32 = intern_bytes(rt, st, name.as_slice());
            match lookup_struct(rt, sym) {
                Some(t) => Ok(t),
                None => {
                    let mut m: Vec<u8> = text("UndefVarError: `");
                    push_bytes(&mut m, name.as_slice());
                    push_text(&mut m, "` not defined");
                    Err(m)
                },
            }
        },
    }
}

/// The fields, as told.
spec fn told_fields(r: Result<Vec<(Vec<u8>, u32)>, Vec<u8>>) -> Result<
    Seq<(Seq<u8>, u32)>,
    Seq<u8>,
> {
    match r {
        Ok(v) => Ok(fields_view(v@)),
        Err(m) => Err(m@),
    }
}

/// Lowers an expression.
fn lower_expr(rt: &mut Runtime, b: &[u8], fl: &Vec<u64>, l: &mut Lower, e: &Expr) -> (r: Result<
    Op,
    Vec<u8>,
>)
    ensures
        (final(rt)@, final(l)@, told(r)) == expr_code(b@, fl@, old(rt)@, old(l)@, *e),
        final(l)@.code.len() >= old(l)@.code.len(),
    decreases e,
{
    match e {
        Expr::Int(n) => Ok(Op::Int(*n)),
        Expr::Float(k) => {
            if *k < fl.len() {
                Ok(Op::Float(fl[*k]))
            } else {
                Ok(Op::Float(0))
            }
        },
        Expr::Var(n) => Ok(Op::Slot(l.slot(name_of(b, *n)))),
        Expr::Bin(op, x, y) => {
            let vx: Op = match lower_expr(rt, b, fl, l, x) {
                Ok(v) => v,
                Err(m) => {
                    return Err(m);
                },
            };
            let vy: Op = match lower_expr(rt, b, fl, l, y) {
                Ok(v) => v,
                Err(m) => {
                    return Err(m);
                },
            };
            let (f, swap): (Builtin, bool) = binop(*op);
            let args: Vec<Op> = if swap {
                vec![vy, vx]
            } else {
                vec![vx, vy]
            };
            assert(args@ =~= if swap {
                seq![vy, vx]
            } else {
                seq![vx, vy]
            });
            Ok(Op::Ssa(l.emit(Stmt::Call(f, args))))
        },
        Expr::Call(n, args) => {
            let name: Vec<u8> = name_of(b, *n);
            let t: u32 = match resolve_type(rt, &name) {
                Ok(t) => t,
                Err(m) => {
                    return Err(m);
                },
            };
            match lower_args(rt, b, fl, l, args) {
                Ok(ops) => Ok(Op::Ssa(l.emit(Stmt::New(t, ops)))),
                Err(m) => Err(m),
            }
        },
        Expr::Field(x, n) => {
            let v: Op = match lower_expr(rt, b, fl, l, x) {
                Ok(v) => v,
                Err(m) => {
                    return Err(m);
                },
            };
            let st: u32 = access::builtin(rt, id::SYMBOL);
            let name: Vec<u8> = name_of(b, *n);
            let sym: u32 = intern_bytes(rt, st, name.as_slice());
            Ok(Op::Ssa(l.emit(Stmt::GetField(v, sym))))
        },
    }
}

/// Lowers some arguments.
fn lower_args(rt: &mut Runtime, b: &[u8], fl: &Vec<u64>, l: &mut Lower, a: &Args) -> (r: Result<
    Vec<Op>,
    Vec<u8>,
>)
    ensures
        (final(rt)@, final(l)@, told_ops(r)) == args_code(b@, fl@, old(rt)@, old(l)@, *a),
        final(l)@.code.len() >= old(l)@.code.len(),
    decreases a,
{
    match a {
        Args::Nil => {
            let ops: Vec<Op> = Vec::new();
            assert(ops@ =~= Seq::<Op>::empty());
            Ok(ops)
        },
        Args::Snoc(first, e) => {
            let mut ops: Vec<Op> = match lower_args(rt, b, fl, l, first) {
                Ok(v) => v,
                Err(m) => {
                    return Err(m);
                },
            };
            match lower_expr(rt, b, fl, l, e) {
                Ok(v) => {
                    ops.push(v);
                    Ok(ops)
                },
                Err(m) => Err(m),
            }
        },
    }
}

/// Resolves some field declarations.
fn lower_fields(rt: &mut Runtime, b: &[u8], f: &Fields) -> (r: Result<
    Vec<(Vec<u8>, u32)>,
    Vec<u8>,
>)
    ensures
        (final(rt)@, told_fields(r)) == fields_of(b@, old(rt)@, *f),
    decreases f,
{
    match f {
        Fields::Nil => {
            let fs: Vec<(Vec<u8>, u32)> = Vec::new();
            assert(fields_view(fs@) =~= Seq::<(Seq<u8>, u32)>::empty());
            Ok(fs)
        },
        Fields::Snoc(first, n, ty) => {
            let mut fs: Vec<(Vec<u8>, u32)> = match lower_fields(rt, b, first) {
                Ok(v) => v,
                Err(m) => {
                    return Err(m);
                },
            };
            let t: u32 = match ty {
                None => access::builtin(rt, id::ANY),
                Some(tn) => {
                    let name: Vec<u8> = name_of(b, *tn);
                    match resolve_type(rt, &name) {
                        Ok(t) => t,
                        Err(m) => {
                            return Err(m);
                        },
                    }
                },
            };
            let ghost before = fields_view(fs@);
            let name: Vec<u8> = name_of(b, *n);
            fs.push((name, t));
            assert(fields_view(fs@) =~= before.push((name@, t)));
            Ok(fs)
        },
    }
}

/// Lowers some statements.
fn lower_block(rt: &mut Runtime, b: &[u8], fl: &Vec<u64>, l: &mut Lower, k: &Block) -> (r: Result<
    Option<Op>,
    Vec<u8>,
>)
    ensures
        (final(rt)@, final(l)@, told(r)) == block_code(b@, fl@, old(rt)@, old(l)@, *k),
        final(l)@.code.len() >= old(l)@.code.len(),
    decreases k,
{
    match k {
        Block::Nil => Ok(None),
        Block::Snoc(first, x) => match lower_block(rt, b, fl, l, first) {
            Ok(_) => lower_stmt(rt, b, fl, l, x),
            Err(m) => Err(m),
        },
    }
}

/// Lowers a statement.
#[verifier::rlimit(60)]
fn lower_stmt(rt: &mut Runtime, b: &[u8], fl: &Vec<u64>, l: &mut Lower, x: &SrcStmt) -> (r: Result<
    Option<Op>,
    Vec<u8>,
>)
    ensures
        (final(rt)@, final(l)@, told(r)) == stmt_code(b@, fl@, old(rt)@, old(l)@, *x),
        final(l)@.code.len() >= old(l)@.code.len(),
    decreases x,
{
    match x {
        SrcStmt::Assign(n, e) => match lower_expr(rt, b, fl, l, e) {
            Err(m) => Err(m),
            Ok(v) => {
                let k: usize = l.slot(name_of(b, *n));
                l.emit(Stmt::Assign(k, v));
                Ok(Some(Op::Slot(k)))
            },
        },
        SrcStmt::FieldAssign(n, f, e) => match lower_expr(rt, b, fl, l, e) {
            Err(m) => Err(m),
            Ok(v) => {
                let k: usize = l.slot(name_of(b, *n));
                let st: u32 = access::builtin(rt, id::SYMBOL);
                let name: Vec<u8> = name_of(b, *f);
                let sym: u32 = intern_bytes(rt, st, name.as_slice());
                l.emit(Stmt::SetField(Op::Slot(k), sym, v));
                Ok(Some(v))
            },
        },
        SrcStmt::Expr(e) => match lower_expr(rt, b, fl, l, e) {
            Err(m) => Err(m),
            Ok(v) => Ok(Some(v)),
        },
        SrcStmt::If(c, yes, no) => match lower_expr(rt, b, fl, l, c) {
            Err(m) => Err(m),
            Ok(v) => {
                let branch: usize = l.emit(Stmt::GotoIfNot(v, 0));
                match lower_block(rt, b, fl, l, yes) {
                    Err(m) => {
                        return Err(m);
                    },
                    Ok(_) => {},
                }
                let skip: usize = l.emit(Stmt::Goto(0));
                let other: usize = l.len();
                match lower_block(rt, b, fl, l, no) {
                    Err(m) => {
                        return Err(m);
                    },
                    Ok(_) => {},
                }
                let end: usize = l.len();
                l.patch(branch, other);
                l.patch(skip, end);
                Ok(None)
            },
        },
        SrcStmt::While(c, body) => {
            let start: usize = l.len();
            match lower_expr(rt, b, fl, l, c) {
                Err(m) => Err(m),
                Ok(v) => {
                    let branch: usize = l.emit(Stmt::GotoIfNot(v, 0));
                    match lower_block(rt, b, fl, l, body) {
                        Err(m) => {
                            return Err(m);
                        },
                        Ok(_) => {},
                    }
                    l.emit(Stmt::Goto(start));
                    let end: usize = l.len();
                    l.patch(branch, end);
                    Ok(None)
                },
            }
        },
        SrcStmt::StructDef(n, mutabl, f) => match lower_fields(rt, b, f) {
            Err(m) => Err(m),
            Ok(fs) => {
                if fs.len() > MAX_FIELDS {
                    return Err(text("too many fields"));
                }
                let name: Vec<u8> = name_of(b, *n);
                match define_struct_from_source(rt, &name, &fs, *mutabl) {
                    Err(m) => Err(m),
                    Ok(_) => Ok(None),
                }
            },
        },
    }
}

/// The body, as told.
pub open spec fn told_body(r: Result<Body, Vec<u8>>) -> Result<BodyV, Seq<u8>> {
    match r {
        Ok(b) => Ok(body_view(b)),
        Err(m) => Err(m@),
    }
}

/// Lowers a program to a body.
fn lower_program(rt: &mut Runtime, b: &[u8], fl: &Vec<u64>, p: &Block) -> (r: Result<Body, Vec<u8>>)
    ensures
        (final(rt)@, told_body(r)) == program_code(b@, fl@, old(rt)@, *p),
{
    let mut l: Lower = Lower { code: Vec::new(), slots: Vec::new() };
    assert(l@ =~= LowV { code: Seq::empty(), slots: Seq::empty() });
    match lower_block(rt, b, fl, &mut l, p) {
        Err(m) => Err(m),
        Ok(last) => {
            let v: Op = match last {
                Some(v) => v,
                None => Op::Int(0),
            };
            l.emit(Stmt::Return(v));
            Ok(Body { nslots: l.slots.len(), code: l.code })
        },
    }
}

/// Lexes, parses and lowers a source text. `floats` holds the bits of its
/// floating-point literals in order.
pub fn lower_source(rt: &mut Runtime, src: &[u8], floats: &Vec<u64>) -> (r: Result<Body, Vec<u8>>)
    ensures
        (final(rt)@, told_body(r)) == old(rt)@.lower_source(src@, floats@),
{
    match lex(src) {
        Err(m) => Err(m),
        Ok(ts) => match parse_program(src, &ts) {
            Err(m) => Err(m),
            Ok(p) => lower_program(rt, src, floats, &p),
        },
    }
}

/// Lexes, parses and lowers a source text, and runs it up to its end or its first
/// pause. `floats` holds the bits of its floating-point literals in order.
pub fn eval_source(rt: &mut Runtime, src: &[u8], floats: &Vec<u64>) -> (r: Result<
    Machine,
    Vec<u8>,
>)
    ensures
        match old(rt)@.lower_source(src@, floats@) {
            (s, Err(m)) => final(rt)@ == s && r is Err && r->Err_0@ == m,
            (s, Ok(v)) => r is Ok && exists|body: Rc<Body>|
                body_view(*body) == v && (final(rt)@, r->Ok_0@) == #[trigger] s.begin(
                    body,
                    Seq::empty(),
                    Seq::empty(),
                ),
        },
{
    match lower_source(rt, src, floats) {
        Err(m) => Err(m),
        Ok(b) => {
            let body: Rc<Body> = Rc::new(b);
            assert(*body == b);
            Ok(eval(rt, &body))
        },
    }
}

} // verus!
