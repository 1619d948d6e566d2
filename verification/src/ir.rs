//! The lowered intermediate representation and the registries that hold it.

use std::rc::Rc;
use vstd::prelude::*;

verus! {

/// An operation that runs without dispatch.
#[derive(Clone, Copy, PartialEq, Eq, Structural)]
pub enum Builtin {
    Add,
    Sub,
    Mul,
    /// Float division; integer operands convert first.
    Div,
    /// Truncating integer division.
    IDiv,
    Rem,
    And,
    Or,
    Xor,
    Shl,
    /// Right shift that fills with the sign.
    Shr,
    /// Right shift that fills with zeros.
    Lshr,
    Slt,
    Sle,
    Eq,
    /// Identity of any two values.
    Egal,
}

/// A statement operand.
#[derive(Clone, Copy, PartialEq, Eq, Structural)]
pub enum Op {
    /// The result of an earlier statement.
    Ssa(usize),
    /// A local slot.
    Slot(usize),
    /// An integer literal, boxed when read.
    Int(i64),
    /// The bits of a double-precision literal, boxed when read.
    Float(u64),
    /// A boxed constant that is reachable independently of the code.
    Const(u32),
    /// The binding of a symbol in the main module.
    Global(u32),
}

/// A lowered statement; its result is the statement's own result slot.
pub enum Stmt {
    /// An operand's value.
    Value(Op),
    /// A builtin operation.
    Call(Builtin, Vec<Op>),
    /// A call of the generic function with this identifier.
    CallGeneric(u32, Vec<Op>),
    /// A call whose first operand is the callee.
    CallValue(Vec<Op>),
    /// An assignment to a slot.
    Assign(usize, Op),
    /// An assignment of a call's result to a slot.
    AssignCall(usize, Vec<Op>),
    /// An assignment to the binding of a symbol in the main module.
    AssignGlobal(u32, Op),
    Goto(usize),
    GotoIfNot(Op, usize),
    Return(Op),
    /// Constructs an instance of a struct type.
    New(u32, Vec<Op>),
    /// Reads the field with this name symbol.
    GetField(Op, u32),
    /// Writes the field with this name symbol.
    SetField(Op, u32, Op),
    /// Begins an exception handler at a catch statement.
    Enter(usize),
    /// Ends this many active handlers.
    Leave(usize),
    Throw(Op),
    /// A one-dimensional array of the operands.
    ArrayLit(Vec<Op>),
    /// Reads an element; the index counts from one.
    ArrayRef(Op, Op),
    /// Writes an element; the index counts from one.
    ArraySet(Op, Op, Op),
    /// Appends to an array.
    Push(Op, Op),
    /// The length of an array.
    Len(Op),
    /// Whether a slot was assigned or a global is bound.
    IsDefined(Op),
    /// Declares or fetches the generic function bound to a symbol.
    MethodFunc(u32),
    /// Defines a method: the function, its signature and its body.
    MethodDef(Op, Op, Rc<Body>),
    /// The exception being handled.
    Caught,
    /// Assigns the exception being handled to a slot.
    AssignCaught(usize),
    /// Throws the exception being handled again.
    Rethrow,
    /// Does nothing: there is a single world of methods.
    LatestWorld,
    /// Restores the exception stack to a recorded depth.
    PopException(Op),
}

/// A lowered body: the number of its slots and its statements. The leading slots
/// of a method are its arguments.
pub struct Body {
    pub nslots: usize,
    pub code: Vec<Stmt>,
}

/// The picture of a statement.
#[verifier::ext_equal]
pub enum StmtV {
    Value(Op),
    Call(Builtin, Seq<Op>),
    CallGeneric(u32, Seq<Op>),
    CallValue(Seq<Op>),
    Assign(usize, Op),
    AssignCall(usize, Seq<Op>),
    AssignGlobal(u32, Op),
    Goto(usize),
    GotoIfNot(Op, usize),
    Return(Op),
    New(u32, Seq<Op>),
    GetField(Op, u32),
    SetField(Op, u32, Op),
    Enter(usize),
    Leave(usize),
    Throw(Op),
    ArrayLit(Seq<Op>),
    ArrayRef(Op, Op),
    ArraySet(Op, Op, Op),
    Push(Op, Op),
    Len(Op),
    IsDefined(Op),
    MethodFunc(u32),
    MethodDef(Op, Op, BodyV),
    Caught,
    AssignCaught(usize),
    Rethrow,
    LatestWorld,
    PopException(Op),
}

/// The picture of a body.
#[verifier::ext_equal]
pub struct BodyV {
    pub nslots: usize,
    pub code: Seq<StmtV>,
}

/// The picture of `s`.
pub open spec fn stmt_view(s: Stmt) -> StmtV
    decreases s,
{
    match s {
        Stmt::Value(a) => StmtV::Value(a),
        Stmt::Call(f, args) => StmtV::Call(f, args@),
        Stmt::CallGeneric(f, args) => StmtV::CallGeneric(f, args@),
        Stmt::CallValue(args) => StmtV::CallValue(args@),
        Stmt::Assign(k, a) => StmtV::Assign(k, a),
        Stmt::AssignCall(k, args) => StmtV::AssignCall(k, args@),
        Stmt::AssignGlobal(g, a) => StmtV::AssignGlobal(g, a),
        Stmt::Goto(t) => StmtV::Goto(t),
        Stmt::GotoIfNot(a, t) => StmtV::GotoIfNot(a, t),
        Stmt::Return(a) => StmtV::Return(a),
        Stmt::New(t, args) => StmtV::New(t, args@),
        Stmt::GetField(a, f) => StmtV::GetField(a, f),
        Stmt::SetField(a, f, v) => StmtV::SetField(a, f, v),
        Stmt::Enter(t) => StmtV::Enter(t),
        Stmt::Leave(n) => StmtV::Leave(n),
        Stmt::Throw(a) => StmtV::Throw(a),
        Stmt::ArrayLit(args) => StmtV::ArrayLit(args@),
        Stmt::ArrayRef(a, i) => StmtV::ArrayRef(a, i),
        Stmt::ArraySet(a, i, v) => StmtV::ArraySet(a, i, v),
        Stmt::Push(a, v) => StmtV::Push(a, v),
        Stmt::Len(a) => StmtV::Len(a),
        Stmt::IsDefined(a) => StmtV::IsDefined(a),
        Stmt::MethodFunc(f) => StmtV::MethodFunc(f),
        Stmt::MethodDef(f, sig, body) => StmtV::MethodDef(f, sig, body_view(*body)),
        Stmt::Caught => StmtV::Caught,
        Stmt::AssignCaught(k) => StmtV::AssignCaught(k),
        Stmt::Rethrow => StmtV::Rethrow,
        Stmt::LatestWorld => StmtV::LatestWorld,
        Stmt::PopException(a) => StmtV::PopException(a),
    }
}

/// The pictures of some statements.
pub open spec fn code_view(code: Seq<Stmt>) -> Seq<StmtV>
    decreases code,
{
    Seq::new(
        code.len(),
        |i: int|
            if 0 <= i < code.len() {
                stmt_view(code[i])
            } else {
                StmtV::Caught
            },
    )
}

/// The picture of `b`.
pub open spec fn body_view(b: Body) -> BodyV
    decreases b,
{
    BodyV { nslots: b.nslots, code: code_view(b.code@) }
}

/// A function that runs natively.
#[derive(Clone, Copy, PartialEq, Eq, Structural)]
pub enum Native {
    Svec,
    Typeof,
    Isa,
    Throw,
    Convert,
    DeclareGlobal,
    GetBindingType,
    SetGlobal,
}

/// What a callable value resolves to.
#[derive(Clone, Copy, PartialEq, Eq, Structural)]
pub enum FnKind {
    /// A generic function's method table.
    Generic(u32),
    /// A native function.
    Native(Native),
}

/// A method: its generic function, its signature (a tuple type), and either an
/// interpretable body or the table index of a compiled entry point.
pub struct Entry {
    pub func: u32,
    pub sig: u32,
    pub body: Option<Rc<Body>>,
    pub fptr1: Option<u32>,
}

/// Another handle on the same body. `Rc::clone` of the standard library gives a
/// pointer to the same allocation, so the handle reads as the body itself.
#[verifier::external_body]
pub(crate) fn share(b: &Rc<Body>) -> (r: Rc<Body>)
    ensures
        r == *b,
{
    Rc::clone(b)
}

} // verus!
