//! What the interpreter does, statement by statement.
//!
//! A running program is a stack of activations; each keeps its slots and its
//! statements' results on the shadow stack. A statement gives a [`Flow`]: what
//! happens to control. Floating-point operations and compiled methods are carried
//! out by the host: the program pauses with a request and goes on with the reply.

use std::rc::Rc;
use vstd::prelude::*;
use crate::access::MAX_NESTING;
use crate::bytes::utf8;
use crate::id;
use crate::intrinsics::{ashr, lshr, sdiv, shl, srem, wrap};
use crate::ir::{Body, Builtin, Entry, FnKind, Op, Stmt};
use crate::region::NULL;
use crate::state::{State, Value};

verus! {

/// The largest number of slots and results of one activation. The slots of a larger one
/// fill an address space of 32 bits.
pub const MAX_FRAME: usize = 0x4000_0000;

/// A floating-point operation.
#[derive(Clone, Copy, PartialEq, Eq, Structural)]
pub enum FloatOp {
    Add,
    Sub,
    Mul,
    Div,
    Rem,
    Lt,
    Le,
    Eq,
}

/// An operand of a floating-point operation: the bits of a double, or an integer to
/// convert first.
#[derive(Clone, Copy, PartialEq, Eq, Structural)]
pub enum Num {
    Bits(u64),
    Int(i64),
}

/// A floating-point operation to carry out.
#[derive(Clone, Copy, PartialEq, Eq, Structural)]
pub struct FloatCall {
    pub op: FloatOp,
    pub a: Num,
    pub b: Num,
}

/// The outcome of a builtin operation.
#[derive(Clone, Copy, PartialEq, Eq, Structural)]
pub enum Applied {
    Done(Value),
    Raise(Value),
    Float(FloatCall),
}

/// What a statement does to control.
pub enum Flow {
    /// On to the next statement.
    Next,
    Jump(usize),
    /// Raises an exception and records it for the handler.
    Throw(Value),
    /// Raises the exception being handled again.
    Rethrow(Value),
    Return(Value),
    /// Begins a handler at the given statement.
    Enter(usize),
    /// Ends this many handlers.
    Leave(usize),
    /// Runs a body on the topmost `n` roots but the `first` ones; the result also
    /// goes to the slot, if any.
    Call { body: Rc<Body>, n: usize, first: usize, slot: Option<usize> },
    /// Waits for a floating-point result; `n` roots hold the operands.
    Float { call: FloatCall, n: usize },
    /// Waits for a compiled method on the topmost `n` roots but the `first` ones.
    Compiled { index: u32, n: usize, first: usize, slot: Option<usize> },
}

/// How a program stands.
#[derive(Clone, Copy, PartialEq, Eq, Structural)]
pub enum Status {
    Running,
    Returned(Value),
    /// Ended by an exception that nothing caught.
    Raised(Value),
    /// Paused for a floating-point result.
    Float(FloatCall),
    /// Paused for a compiled method; its arguments are the topmost `nargs` roots.
    Compiled { index: u32, nargs: usize },
    /// Control left the code, or an activation is too large.
    Malformed,
}

/// What an activation waits for: the roots that hold the operands, and a slot.
#[derive(Clone, Copy, PartialEq, Eq, Structural)]
pub struct Pending {
    pub n: usize,
    pub slot: Option<usize>,
}

/// The picture of an activation.
#[verifier::ext_equal]
pub struct ActV {
    pub body: Rc<Body>,
    /// The shadow-stack position of the first slot.
    pub base: usize,
    pub ip: usize,
    pub handlers: Seq<usize>,
    pub pending: Option<Pending>,
    /// The slots that go to global bindings on return.
    pub flush: Seq<(usize, u32)>,
}

/// The picture of a running program.
#[verifier::ext_equal]
pub struct MachineV {
    pub acts: Seq<ActV>,
    pub status: Status,
}

/// The number of shadow-stack slots of an activation.
pub open spec fn frame_size(body: Rc<Body>) -> int {
    body.nslots + body.code@.len()
}

impl MachineV {
    pub open spec fn with_top(self, a: ActV) -> MachineV {
        MachineV { acts: self.acts.drop_last().push(a), ..self }
    }

    pub open spec fn with_status(self, status: Status) -> MachineV {
        MachineV { status, ..self }
    }
}

/// The statement after `ip`.
pub open spec fn after(ip: usize) -> usize {
    if ip == usize::MAX {
        ip
    } else {
        (ip + 1) as usize
    }
}

/// Whether a floating-point operation compares.
pub open spec fn compares(op: FloatOp) -> bool {
    op == FloatOp::Lt || op == FloatOp::Le || op == FloatOp::Eq
}

impl State {
    /// The root at position `i`; null where there is none.
    pub open spec fn root_at(self, i: int) -> u32 {
        if 0 <= i < self.roots.len() {
            self.roots[i]
        } else {
            NULL
        }
    }

    /// An error with the given message, raised.
    pub open spec fn fail(self, msg: Seq<u8>) -> (State, Flow) {
        let (s, e) = self.error_exception(msg);
        (s, Flow::Throw(Value(e)))
    }

    /// The value of an operand.
    pub open spec fn read_op(self, base: int, nslots: int, op: Op) -> (State, Result<Value, Value>) {
        match op {
            Op::Ssa(i) => (self, Ok(Value(self.root_at(base + nslots + i)))),
            Op::Slot(k) => (self, Ok(Value(self.root_at(base + k)))),
            Op::Int(c) => {
                let (s, v) = self.box_int(c);
                (s, Ok(Value(v)))
            },
            Op::Float(c) => {
                let (s, v) = self.box64(id::FLOAT64, c);
                (s, Ok(Value(v)))
            },
            Op::Const(o) => (self, Ok(Value(o))),
            Op::Global(sym) => match self.get_global(self.main, sym) {
                (s, Some(v)) => (s, Ok(v)),
                (s, None) => {
                    let (s1, e) = s.error_exception(
                        utf8("UndefVarError: `") + s.sym_text(sym) + utf8("` not defined in `Main`"),
                    );
                    (s1, Err(Value(e)))
                },
            },
        }
    }

    /// Reads the operands from `j` on to the roots from `at + j` on.
    pub open spec fn read_args(
        self,
        base: int,
        nslots: int,
        ops: Seq<Op>,
        at: int,
        j: int,
    ) -> (State, Result<(), Value>)
        decreases ops.len() - j,
    {
        if j < 0 || j >= ops.len() {
            (self, Ok(()))
        } else {
            match self.read_op(base, nslots, ops[j]) {
                (s, Ok(v)) => s.with_root(at + j, v.0).read_args(base, nslots, ops, at, j + 1),
                (s, Err(e)) => (s, Err(e)),
            }
        }
    }

    /// The `n` values on the roots from `at` on.
    pub open spec fn values_at(self, at: int, n: int) -> Seq<Value> {
        Seq::new(
            if n > 0 {
                n as nat
            } else {
                0
            },
            |i: int| Value(self.root_at(at + i)),
        )
    }

    /// The state with `v` as the result of statement `ip`, and in the slot, if any.
    pub open spec fn store(
        self,
        base: int,
        nslots: int,
        ip: int,
        slot: Option<usize>,
        v: Value,
    ) -> State {
        match slot {
            Some(k) => self.with_root(base + k, v.0).with_root(base + nslots + ip, v.0),
            None => self.with_root(base + nslots + ip, v.0),
        }
    }

    /// The end of a statement with the outcome `r`.
    pub open spec fn settle(
        self,
        base: int,
        nslots: int,
        ip: int,
        slot: Option<usize>,
        r: Result<Value, Value>,
    ) -> (State, Flow) {
        match r {
            Ok(v) => (self.store(base, nslots, ip, slot, v), Flow::Next),
            Err(e) => (self, Flow::Throw(e)),
        }
    }

    /// An operand of a division: a double's bits, else an integer.
    pub open spec fn numeral(self, v: u32) -> Num {
        if self.tag(v) == self.builtin(id::FLOAT64) {
            Num::Bits(self.word64(v))
        } else {
            Num::Int(self.unbox_int(v))
        }
    }

    /// A boxed integer as the outcome of an operation.
    pub open spec fn int_result(self, x: i64) -> (State, Applied) {
        let (s, v) = self.box_int(x);
        (s, Applied::Done(Value(v)))
    }

    pub open spec fn bool_result(self, b: bool) -> (State, Applied) {
        (self, Applied::Done(Value(self.box_bool(b))))
    }

    pub open spec fn checked_result(self, x: Option<i64>) -> (State, Applied) {
        match x {
            Some(q) => self.int_result(q),
            None => (self, Applied::Raise(Value(self.singleton(id::DIVIDEERROR)))),
        }
    }

    pub open spec fn float_request(self, op: FloatOp, x: u32, y: u32) -> (State, Applied) {
        (
            self,
            Applied::Float(
                FloatCall {
                    op,
                    a: Num::Bits(self.word64(x)),
                    b: Num::Bits(self.word64(y)),
                },
            ),
        )
    }

    /// The outcome of a builtin on two doubles.
    pub open spec fn apply_float(self, b: Builtin, x: u32, y: u32) -> (State, Applied) {
        match b {
            Builtin::Add => self.float_request(FloatOp::Add, x, y),
            Builtin::Sub => self.float_request(FloatOp::Sub, x, y),
            Builtin::Mul => self.float_request(FloatOp::Mul, x, y),
            Builtin::Rem => self.float_request(FloatOp::Rem, x, y),
            Builtin::Slt => self.float_request(FloatOp::Lt, x, y),
            Builtin::Sle => self.float_request(FloatOp::Le, x, y),
            Builtin::Eq => self.float_request(FloatOp::Eq, x, y),
            _ => {
                let (s, e) = self.error_exception(utf8("integer operator applied to Float64"));
                (s, Applied::Raise(Value(e)))
            },
        }
    }

    /// The outcome of a builtin on two integers.
    pub open spec fn apply_int(self, b: Builtin, a: i64, c: i64) -> (State, Applied) {
        match b {
            Builtin::Add => self.int_result(wrap(a + c)),
            Builtin::Sub => self.int_result(wrap(a - c)),
            Builtin::Mul => self.int_result(wrap(a * c)),
            Builtin::IDiv => self.checked_result(sdiv(a, c)),
            Builtin::Rem => self.checked_result(srem(a, c)),
            Builtin::And => self.int_result(a & c),
            Builtin::Or => self.int_result(a | c),
            Builtin::Xor => self.int_result(a ^ c),
            Builtin::Shl => self.int_result(shl(a, c)),
            Builtin::Shr => self.int_result(ashr(a, c)),
            Builtin::Lshr => self.int_result(lshr(a, c)),
            Builtin::Slt => self.bool_result(a < c),
            Builtin::Sle => self.bool_result(a <= c),
            _ => self.bool_result(a == c),
        }
    }

    /// The outcome of a builtin operation. The type of the first operand chooses
    /// between integer and floating-point arithmetic; division is always the latter.
    #[verifier::opaque]
    pub open spec fn apply_builtin(self, b: Builtin, x: u32, y: u32) -> (State, Applied) {
        if b == Builtin::Egal {
            self.bool_result(self.egal(x, y, MAX_NESTING as nat))
        } else if b == Builtin::Div {
            (
                self,
                Applied::Float(
                    FloatCall { op: FloatOp::Div, a: self.numeral(x), b: self.numeral(y) },
                ),
            )
        } else if self.tag(x) == self.builtin(id::FLOAT64) {
            self.apply_float(b, x, y)
        } else {
            self.apply_int(b, self.unbox_int(x), self.unbox_int(y))
        }
    }

    /// A builtin operation.
    #[verifier::opaque]
    pub open spec fn do_call(
        self,
        base: int,
        nslots: int,
        ip: int,
        b: Builtin,
        args: Seq<Op>,
    ) -> (State, Flow) {
        let at = self.roots.len() as int;
        let n = args.len() as int;
        match self.push_frame(args.len()).read_args(base, nslots, args, at, 0) {
            (s, Err(e)) => (s.pop_roots(n), Flow::Throw(e)),
            (s, Ok(_)) => match s.apply_builtin(b, s.root_at(at), s.root_at(at + 1)) {
                (s1, Applied::Done(v)) => s1.pop_roots(n).settle(base, nslots, ip, None, Ok(v)),
                (s1, Applied::Raise(e)) => (s1.pop_roots(n), Flow::Throw(e)),
                (s1, Applied::Float(call)) => (s1, Flow::Float { call, n: args.len() as usize }),
            },
        }
    }

    /// A call of the generic function `func` on the topmost `n` roots but the `first`
    /// ones. Without a method the result is null.
    #[verifier::opaque]
    pub open spec fn do_dispatch(
        self,
        base: int,
        nslots: int,
        ip: int,
        func: u32,
        n: usize,
        first: usize,
        slot: Option<usize>,
    ) -> (State, Flow) {
        let at = self.roots.len() - n + first;
        let types = self.values_at(at, n - first).map_values(|v: Value| self.tag(v.0));
        let (s, chosen) = self.select(func, types);
        match chosen {
            Some(i) if i < s.methods.len() => match s.methods[i as int] {
                Entry { fptr1: Some(index), .. } => (s, Flow::Compiled { index, n, first, slot }),
                Entry { fptr1: None, body: Some(body), .. } => (
                    s,
                    Flow::Call { body, n, first, slot },
                ),
                _ => s.pop_roots(n as int).settle(base, nslots, ip, slot, Ok(Value(NULL))),
            },
            _ => s.pop_roots(n as int).settle(base, nslots, ip, slot, Ok(Value(NULL))),
        }
    }

    /// A call of a generic function by its identifier.
    pub open spec fn do_generic(
        self,
        base: int,
        nslots: int,
        ip: int,
        func: u32,
        args: Seq<Op>,
    ) -> (State, Flow) {
        let at = self.roots.len() as int;
        match self.push_frame(args.len()).read_args(base, nslots, args, at, 0) {
            (s, Err(e)) => (s.pop_roots(args.len() as int), Flow::Throw(e)),
            (s, Ok(_)) => s.do_dispatch(base, nslots, ip, func, args.len() as usize, 0, None),
        }
    }

    /// A call whose first operand is the callee.
    #[verifier::opaque]
    pub open spec fn do_value_call(
        self,
        base: int,
        nslots: int,
        ip: int,
        slot: Option<usize>,
        args: Seq<Op>,
    ) -> (State, Flow) {
        let at = self.roots.len() as int;
        let n = args.len() as int;
        match self.push_frame(args.len()).read_args(base, nslots, args, at, 0) {
            (s, Err(e)) => (s.pop_roots(n), Flow::Throw(e)),
            (s, Ok(_)) => {
                let callee = s.root_at(at);
                match s.callable_of(callee) {
                    Some(FnKind::Generic(func)) => s.do_dispatch(
                        base,
                        nslots,
                        ip,
                        func,
                        args.len() as usize,
                        if n > 0 {
                            1
                        } else {
                            0
                        },
                        slot,
                    ),
                    Some(FnKind::Native(f)) => {
                        let (s1, r) = s.run_native(f, s.values_at(at + 1, n - 1));
                        s1.pop_roots(n).settle(base, nslots, ip, slot, r)
                    },
                    None => {
                        let (s1, e) = s.error_exception(
                            utf8("MethodError: objects of type ") + s.sym_text(
                                s.type_sym(s.tag(callee)),
                            ) + utf8(" are not callable"),
                        );
                        (s1.pop_roots(n), Flow::Throw(Value(e)))
                    },
                }
            },
        }
    }

    /// The construction of a struct.
    #[verifier::opaque]
    pub open spec fn do_new(
        self,
        base: int,
        nslots: int,
        ip: int,
        t: u32,
        args: Seq<Op>,
    ) -> (State, Flow) {
        let at = self.roots.len() as int;
        let n = args.len() as int;
        match self.push_frame(args.len()).read_args(base, nslots, args, at, 0) {
            (s, Err(e)) => (s.pop_roots(n), Flow::Throw(e)),
            (s, Ok(_)) => match s.new_struct(t, s.values_at(at, n)) {
                (s1, Ok(v)) => s1.pop_roots(n).settle(base, nslots, ip, None, Ok(v)),
                (s1, Err(m)) => {
                    let (s2, e) = s1.error_exception(m);
                    (s2.pop_roots(n), Flow::Throw(Value(e)))
                },
            },
        }
    }

    /// The message for a missing field.
    pub open spec fn no_field_text(self, t: u32, name: u32) -> Seq<u8> {
        utf8("type ") + self.sym_text(self.type_sym(t)) + utf8(" has no field ") + self.sym_text(
            name,
        )
    }

    /// The read of a field.
    #[verifier::opaque]
    pub open spec fn do_get_field(
        self,
        base: int,
        nslots: int,
        ip: int,
        op: Op,
        name: u32,
    ) -> (State, Flow) {
        match self.read_op(base, nslots, op) {
            (s, Err(e)) => (s, Flow::Throw(e)),
            (s, Ok(v)) => {
                let t = s.tag(v.0);
                match s.field_index(t, name) {
                    None => s.fail(s.no_field_text(t, name)),
                    Some(i) => match s.get_nth_field(v.0, i) {
                        (s1, Ok(r)) => s1.settle(base, nslots, ip, None, Ok(r)),
                        (s1, Err(m)) => s1.fail(m),
                    },
                }
            },
        }
    }

    /// The write of a field.
    #[verifier::opaque]
    pub open spec fn do_set_field(
        self,
        base: int,
        nslots: int,
        ip: int,
        obj: Op,
        name: u32,
        rhs: Op,
    ) -> (State, Flow) {
        match self.read_op(base, nslots, obj) {
            (s, Err(e)) => (s, Flow::Throw(e)),
            (s, Ok(v)) => match s.read_op(base, nslots, rhs) {
                (s1, Err(e)) => (s1, Flow::Throw(e)),
                (s1, Ok(r)) => {
                    let t = s1.tag(v.0);
                    match s1.field_index(t, name) {
                        None => s1.fail(s1.no_field_text(t, name)),
                        Some(i) => match s1.set_nth_field(v.0, i, r.0) {
                            (s2, Ok(_)) => s2.settle(base, nslots, ip, None, Ok(r)),
                            (s2, Err(m)) => s2.fail(m),
                        },
                    }
                },
            },
        }
    }

    /// The declaration of a generic function.
    #[verifier::opaque]
    pub open spec fn do_method_func(
        self,
        base: int,
        nslots: int,
        ip: int,
        sym: u32,
    ) -> (State, Flow) {
        match self.get_global(self.main, sym) {
            (s, Some(v)) => if s.func_of(v.0) is None {
                s.fail(
                    utf8("cannot define function ") + s.sym_text(sym) + utf8(
                        "; it already has a value",
                    ),
                )
            } else {
                s.settle(base, nslots, ip, None, Ok(v))
            },
            (s, None) => {
                let (s1, f) = s.take_func().make_callable(
                    s.sym_text(sym),
                    FnKind::Generic(s.next_func),
                );
                let s2 = s1.store(base, nslots, ip, None, Value(f));
                match s2.set_global(s2.main, sym, f) {
                    (s3, Ok(_)) => s3.settle(base, nslots, ip, None, Ok(Value(f))),
                    (s3, Err(e)) => (s3, Flow::Throw(e)),
                }
            },
        }
    }

    /// The signature that a method definition's operand stands for: a tuple type, or
    /// a vector of the vector of the callee's type and the argument types, the vector
    /// of static parameters, and more.
    #[verifier::opaque]
    pub open spec fn method_signature(self, sig: u32) -> (State, Result<u32, Value>) {
        let sigv = self.svec_ref(sig, 0);
        let sparams = self.svec_ref(sig, 1);
        if self.is_datatype(sig) && self.is_tuple(sig) {
            (self, Ok(sig))
        } else if !self.is_svec(self.tag(sig)) || self.svec_len(sig) < 2 {
            let (s, e) = self.error_exception(
                utf8("method: signature must be a Tuple type or argdata svec"),
            );
            (s, Err(Value(e)))
        } else if !self.is_svec(self.tag(sigv)) || !self.is_svec(self.tag(sparams)) {
            let (s, e) = self.error_exception(utf8("method: malformed argdata"));
            (s, Err(Value(e)))
        } else if self.svec_len(sparams) != 0 {
            let (s, e) = self.error_exception(utf8("method: static parameters not supported yet"));
            (s, Err(Value(e)))
        } else {
            let all = self.svec_seq(sigv);
            let types = if all.len() > 0 {
                all.skip(1)
            } else {
                all
            };
            let (s, t) = self.push_root(sig).tuple_type(types);
            (s.pop_roots(1), Ok(t))
        }
    }

    /// The definition of a method.
    #[verifier::opaque]
    pub open spec fn do_method_def(
        self,
        base: int,
        nslots: int,
        ip: int,
        fop: Op,
        sigop: Op,
        body: Rc<Body>,
    ) -> (State, Flow) {
        match self.read_op(base, nslots, fop) {
            (s, Err(e)) => (s, Flow::Throw(e)),
            (s, Ok(f)) => match s.read_op(base, nslots, sigop) {
                (s1, Err(e)) => (s1, Flow::Throw(e)),
                (s1, Ok(sig)) => match s1.func_of(f.0) {
                    None => s1.fail(utf8("method: not a generic function")),
                    Some(func) => match s1.method_signature(sig.0) {
                        (s2, Err(e)) => (s2, Flow::Throw(e)),
                        (s2, Ok(t)) => {
                            let s3 = s2.with_method(
                                Entry { func, sig: t, body: Some(body), fptr1: None },
                            );
                            s3.settle(
                                base,
                                nslots,
                                ip,
                                None,
                                Ok(Value(s3.singleton(id::NOTHING))),
                            )
                        },
                    },
                },
            },
        }
    }

    /// The element type of an array literal: the elements' common type, or `Any`.
    pub open spec fn common_type(self, vals: Seq<Value>) -> u32 {
        if vals.len() > 0 && (forall|j: int|
            0 <= j < vals.len() ==> self.tag((#[trigger] vals[j]).0) == self.tag(vals[0].0)) {
            self.tag(vals[0].0)
        } else {
            self.builtin(id::ANY)
        }
    }

    /// Stores the values from `j` on in the array `a`.
    pub open spec fn fill_array(
        self,
        a: u32,
        vals: Seq<Value>,
        j: int,
    ) -> (State, Result<(), Value>)
        decreases vals.len() - j,
    {
        if j < 0 || j >= vals.len() {
            (self, Ok(()))
        } else {
            match self.arr_set(a, j as u32, vals[j].0) {
                (s, Ok(_)) => s.fill_array(a, vals, j + 1),
                (s, Err(e)) => (s, Err(e)),
            }
        }
    }

    /// An array literal.
    #[verifier::opaque]
    pub open spec fn do_array(
        self,
        base: int,
        nslots: int,
        ip: int,
        args: Seq<Op>,
    ) -> (State, Flow) {
        let at = self.roots.len() as int;
        let n = args.len() as int;
        match self.push_frame(args.len()).read_args(base, nslots, args, at, 0) {
            (s, Err(e)) => (s.pop_roots(n), Flow::Throw(e)),
            (s, Ok(_)) => {
                let vals = s.values_at(at, n);
                match s.arr_alloc(s.common_type(vals), args.len() as u32) {
                    (s1, Err(e)) => (s1.pop_roots(n), Flow::Throw(e)),
                    (s1, Ok(a)) => match s1.push_root(a.0).fill_array(a.0, vals, 0) {
                        (s2, Err(e)) => (s2.pop_roots(n + 1), Flow::Throw(e)),
                        (s2, Ok(_)) => s2.pop_roots(n + 1).settle(base, nslots, ip, None, Ok(a)),
                    },
                }
            },
        }
    }

    /// Whether `v` is an array; if not, the exception.
    pub open spec fn expect_array(self, v: u32) -> (State, Result<(), Value>) {
        if self.is_array(self.tag(v)) {
            (self, Ok(()))
        } else {
            let (s, e) = self.error_exception(utf8("MethodError: expected an Array"));
            (s, Err(Value(e)))
        }
    }

    /// The position for the boxed index `i`, which counts from one, in the array `a`.
    #[verifier::opaque]
    pub open spec fn index_checked(self, a: u32, i: u32) -> (State, Result<u32, Value>) {
        match self.expect_array(a) {
            (s, Err(e)) => (s, Err(e)),
            (s, Ok(_)) => {
                let k = s.unbox_int(i);
                if k < 1 || k > s.arr_len(a) {
                    let (s1, e) = s.bounds_error(a, k);
                    (s1, Err(Value(e)))
                } else {
                    (s, Ok((k - 1) as u32))
                }
            },
        }
    }

    /// The read of an array element.
    #[verifier::opaque]
    pub open spec fn do_array_ref(
        self,
        base: int,
        nslots: int,
        ip: int,
        a: Op,
        idx: Op,
    ) -> (State, Flow) {
        match self.read_op(base, nslots, a) {
            (s, Err(e)) => (s, Flow::Throw(e)),
            (s, Ok(av)) => match s.read_op(base, nslots, idx) {
                (s1, Err(e)) => (s1, Flow::Throw(e)),
                (s1, Ok(i)) => match s1.index_checked(av.0, i.0) {
                    (s2, Err(e)) => (s2, Flow::Throw(e)),
                    (s2, Ok(k)) => {
                        let (s3, r) = s2.arr_get(av.0, k);
                        s3.settle(base, nslots, ip, None, r)
                    },
                },
            },
        }
    }

    /// The write of an array element.
    #[verifier::opaque]
    pub open spec fn do_array_set(
        self,
        base: int,
        nslots: int,
        ip: int,
        a: Op,
        idx: Op,
        rhs: Op,
    ) -> (State, Flow) {
        match self.read_op(base, nslots, a) {
            (s, Err(e)) => (s, Flow::Throw(e)),
            (s, Ok(av)) => match s.read_op(base, nslots, idx) {
                (s1, Err(e)) => (s1, Flow::Throw(e)),
                (s1, Ok(i)) => match s1.read_op(base, nslots, rhs) {
                    (s2, Err(e)) => (s2, Flow::Throw(e)),
                    (s2, Ok(r)) => match s2.index_checked(av.0, i.0) {
                        (s3, Err(e)) => (s3, Flow::Throw(e)),
                        (s3, Ok(k)) => match s3.arr_set(av.0, k, r.0) {
                            (s4, Err(e)) => (s4, Flow::Throw(e)),
                            (s4, Ok(_)) => s4.settle(base, nslots, ip, None, Ok(r)),
                        },
                    },
                },
            },
        }
    }

    /// An append to an array.
    #[verifier::opaque]
    pub open spec fn do_push(self, base: int, nslots: int, ip: int, a: Op, v: Op) -> (State, Flow) {
        match self.read_op(base, nslots, a) {
            (s, Err(e)) => (s, Flow::Throw(e)),
            (s, Ok(av)) => match s.read_op(base, nslots, v) {
                (s1, Err(e)) => (s1, Flow::Throw(e)),
                (s1, Ok(x)) => match s1.expect_array(av.0) {
                    (s2, Err(e)) => (s2, Flow::Throw(e)),
                    (s2, Ok(_)) => match s2.arr_push(av.0, x.0) {
                        (s3, Err(e)) => (s3, Flow::Throw(e)),
                        (s3, Ok(_)) => s3.settle(base, nslots, ip, None, Ok(av)),
                    },
                },
            },
        }
    }

    /// The length of an array.
    #[verifier::opaque]
    pub open spec fn do_len(self, base: int, nslots: int, ip: int, a: Op) -> (State, Flow) {
        match self.read_op(base, nslots, a) {
            (s, Err(e)) => (s, Flow::Throw(e)),
            (s, Ok(av)) => match s.expect_array(av.0) {
                (s1, Err(e)) => (s1, Flow::Throw(e)),
                (s1, Ok(_)) => {
                    let (s2, v) = s1.box_int(s1.arr_len(av.0) as i64);
                    s2.settle(base, nslots, ip, None, Ok(Value(v)))
                },
            },
        }
    }

    /// Whether a slot was assigned or a global is bound; other operands always are.
    pub open spec fn op_defined(self, base: int, op: Op) -> (State, bool) {
        match op {
            Op::Slot(k) => (self, self.root_at(base + k) != NULL),
            Op::Global(sym) => {
                let (s, v) = self.get_global(self.main, sym);
                (s, v is Some)
            },
            _ => (self, true),
        }
    }

    /// A statement that reads one operand and stores it.
    pub open spec fn do_assign(
        self,
        base: int,
        nslots: int,
        ip: int,
        slot: Option<usize>,
        op: Op,
    ) -> (State, Flow) {
        let (s, r) = self.read_op(base, nslots, op);
        s.settle(base, nslots, ip, slot, r)
    }

    /// An assignment to a global.
    pub open spec fn do_assign_global(
        self,
        base: int,
        nslots: int,
        ip: int,
        sym: u32,
        op: Op,
    ) -> (State, Flow) {
        match self.read_op(base, nslots, op) {
            (s, Err(e)) => (s, Flow::Throw(e)),
            (s, Ok(v)) => {
                let s1 = s.store(base, nslots, ip, None, v);
                match s1.set_global(s1.main, sym, v.0) {
                    (s2, Ok(_)) => (s2, Flow::Next),
                    (s2, Err(e)) => (s2, Flow::Throw(e)),
                }
            },
        }
    }

    /// The effect of statement `ip` of an activation whose slots begin at `base`.
    #[verifier::opaque]
    pub open spec fn exec_stmt(self, base: int, nslots: int, ip: int, stmt: Stmt) -> (State, Flow) {
        match stmt {
            Stmt::Goto(target) => (self, Flow::Jump(target)),
            Stmt::GotoIfNot(cond, target) => match self.read_op(base, nslots, cond) {
                (s, Err(e)) => (s, Flow::Throw(e)),
                (s, Ok(c)) => if s.unbox_bool(c.0) {
                    (s, Flow::Next)
                } else {
                    (s, Flow::Jump(target))
                },
            },
            Stmt::Return(op) => match self.read_op(base, nslots, op) {
                (s, Err(e)) => (s, Flow::Throw(e)),
                (s, Ok(v)) => (s, Flow::Return(v)),
            },
            Stmt::Value(op) => self.do_assign(base, nslots, ip, None, op),
            Stmt::Assign(slot, op) => self.do_assign(base, nslots, ip, Some(slot), op),
            Stmt::AssignCall(slot, args) => self.do_value_call(base, nslots, ip, Some(slot), args@),
            Stmt::CallValue(args) => self.do_value_call(base, nslots, ip, None, args@),
            Stmt::LatestWorld => (self, Flow::Next),
            Stmt::AssignGlobal(sym, op) => self.do_assign_global(base, nslots, ip, sym, op),
            Stmt::Call(b, args) => self.do_call(base, nslots, ip, b, args@),
            Stmt::CallGeneric(func, args) => self.do_generic(base, nslots, ip, func, args@),
            Stmt::New(t, args) => self.do_new(base, nslots, ip, t, args@),
            Stmt::GetField(op, name) => self.do_get_field(base, nslots, ip, op, name),
            Stmt::SetField(obj, name, rhs) => self.do_set_field(base, nslots, ip, obj, name, rhs),
            Stmt::Enter(catch_ip) => {
                let (s, v) = self.box_int(self.exc.len() as i64);
                (s.store(base, nslots, ip, None, Value(v)), Flow::Enter(catch_ip))
            },
            Stmt::Leave(n) => (self, Flow::Leave(n)),
            Stmt::Throw(op) => match self.read_op(base, nslots, op) {
                (s, Err(e)) => (s, Flow::Throw(e)),
                (s, Ok(v)) => (s, Flow::Throw(v)),
            },
            Stmt::MethodFunc(sym) => self.do_method_func(base, nslots, ip, sym),
            Stmt::MethodDef(fop, sigop, body) => self.do_method_def(
                base,
                nslots,
                ip,
                fop,
                sigop,
                body,
            ),
            Stmt::Caught => self.settle(base, nslots, ip, None, Ok(Value(self.exc_current()))),
            Stmt::AssignCaught(slot) => self.settle(
                base,
                nslots,
                ip,
                Some(slot),
                Ok(Value(self.exc_current())),
            ),
            Stmt::Rethrow => (self, Flow::Rethrow(Value(self.exc_current()))),
            Stmt::PopException(op) => match self.read_op(base, nslots, op) {
                (s, Err(e)) => (s, Flow::Throw(e)),
                (s, Ok(v)) => (s.exc_restore(s.unbox_int(v.0) as int), Flow::Next),
            },
            Stmt::ArrayLit(args) => self.do_array(base, nslots, ip, args@),
            Stmt::ArrayRef(a, idx) => self.do_array_ref(base, nslots, ip, a, idx),
            Stmt::ArraySet(a, idx, rhs) => self.do_array_set(base, nslots, ip, a, idx, rhs),
            Stmt::Push(a, v) => self.do_push(base, nslots, ip, a, v),
            Stmt::Len(a) => self.do_len(base, nslots, ip, a),
            Stmt::IsDefined(op) => {
                let (s, b) = self.op_defined(base, op);
                s.settle(base, nslots, ip, None, Ok(Value(s.box_bool(b))))
            },
        }
    }

    /// Binds the slots of a new activation from `i` on.
    pub open spec fn seed(self, base: int, seeds: Seq<(usize, Value)>, i: int) -> State
        decreases seeds.len() - i,
    {
        if i < 0 || i >= seeds.len() {
            self
        } else {
            self.with_root(base + seeds[i].0, seeds[i].1.0).seed(base, seeds, i + 1)
        }
    }

    /// Starts an activation of `body`.
    #[verifier::opaque]
    pub open spec fn activate(
        self,
        m: MachineV,
        body: Rc<Body>,
        seeds: Seq<(usize, Value)>,
        flush: Seq<(usize, u32)>,
    ) -> (State, MachineV) {
        if frame_size(body) > MAX_FRAME {
            (self, m.with_status(Status::Malformed))
        } else {
            let base = self.roots.len();
            (
                self.push_frame(frame_size(body) as nat).seed(base as int, seeds, 0),
                MachineV {
                    acts: m.acts.push(
                        ActV {
                            body,
                            base: base as usize,
                            ip: 0,
                            handlers: Seq::empty(),
                            pending: None,
                            flush,
                        },
                    ),
                    status: Status::Running,
                },
            )
        }
    }

    /// Ends the topmost activation: the state without its roots, the machine without
    /// it, and, for the activation below, without the roots it kept for the call.
    pub open spec fn deactivate(self, m: MachineV) -> (State, MachineV) {
        let top = m.acts.last();
        let s = self.pop_roots(frame_size(top.body));
        let rest = m.acts.drop_last();
        if rest.len() == 0 {
            (s, MachineV { acts: rest, ..m })
        } else {
            let below = rest.last();
            let n = match below.pending {
                Some(p) => p.n as int,
                None => 0,
            };
            (s.pop_roots(n), MachineV { acts: rest, ..m })
        }
    }

    /// Raises the exception `v` in the topmost activation. Its innermost handler takes
    /// it, and it is recorded if `push`; without a handler the activation ends.
    #[verifier::opaque]
    pub open spec fn raise(self, m: MachineV, v: Value, push: bool) -> (State, MachineV)
        decreases m.acts.len(),
    {
        if m.acts.len() == 0 {
            (self, m.with_status(Status::Raised(v)))
        } else {
            let top = m.acts.last();
            if top.handlers.len() > 0 {
                (
                    if push {
                        State { exc: self.exc.push(v.0), ..self }
                    } else {
                        self
                    },
                    m.with_top(
                        ActV {
                            ip: top.handlers.last(),
                            handlers: top.handlers.drop_last(),
                            pending: None,
                            ..top
                        },
                    ),
                )
            } else {
                let (s, m1) = self.deactivate(m);
                s.raise(m1, v, true)
            }
        }
    }

    /// Hands the result `v` to the topmost activation, which waits for it.
    pub open spec fn deliver(self, m: MachineV, v: Value) -> (State, MachineV) {
        let top = m.acts.last();
        let slot = match top.pending {
            Some(p) => p.slot,
            None => None,
        };
        (
            self.store(top.base as int, top.body.nslots as int, top.ip as int, slot, v),
            m.with_top(ActV { ip: after(top.ip), pending: None, ..top }),
        )
    }

    /// Binds the globals of the slots from `i` on; unassigned slots are passed over.
    pub open spec fn flush_slots(
        self,
        base: int,
        flush: Seq<(usize, u32)>,
        i: int,
    ) -> (State, Result<(), Value>)
        decreases flush.len() - i,
    {
        if i < 0 || i >= flush.len() {
            (self, Ok(()))
        } else {
            let v = self.root_at(base + flush[i].0);
            if v == NULL {
                self.flush_slots(base, flush, i + 1)
            } else {
                match self.set_global(self.main, flush[i].1, v) {
                    (s, Ok(_)) => s.flush_slots(base, flush, i + 1),
                    (s, Err(e)) => (s, Err(e)),
                }
            }
        }
    }

    /// Returns `v` from the topmost activation.
    #[verifier::opaque]
    pub open spec fn finish(self, m: MachineV, v: Value) -> (State, MachineV) {
        let top = m.acts.last();
        let (s, r) = self.push_root(v.0).flush_slots(top.base as int, top.flush, 0);
        let (s1, m1) = s.pop_roots(1).deactivate(m);
        match r {
            Err(e) => s1.raise(m1, e, true),
            Ok(_) => if m1.acts.len() == 0 {
                (s1, m1.with_status(Status::Returned(v)))
            } else {
                s1.deliver(m1, v)
            },
        }
    }

    /// The arguments of a call, as seeds of the leading slots.
    pub open spec fn call_seeds(self, n: int, first: int) -> Seq<(usize, Value)> {
        let vals = self.values_at(self.roots.len() - n + first, n - first);
        vals.map(|i: int, v: Value| (i as usize, v))
    }

    /// The program after a statement with the given flow.
    #[verifier::opaque]
    pub open spec fn follow(self, m: MachineV, flow: Flow) -> (State, MachineV) {
        let top = m.acts.last();
        match flow {
            Flow::Next => (self, m.with_top(ActV { ip: after(top.ip), ..top })),
            Flow::Jump(target) => (self, m.with_top(ActV { ip: target, ..top })),
            Flow::Throw(v) => self.raise(m, v, true),
            Flow::Rethrow(v) => self.raise(m, v, false),
            Flow::Return(v) => self.finish(m, v),
            Flow::Enter(catch_ip) => (
                self,
                m.with_top(
                    ActV { ip: after(top.ip), handlers: top.handlers.push(catch_ip), ..top },
                ),
            ),
            Flow::Leave(n) => (
                self,
                m.with_top(
                    ActV {
                        ip: after(top.ip),
                        handlers: top.handlers.take(
                            if n <= top.handlers.len() {
                                top.handlers.len() - n
                            } else {
                                0
                            },
                        ),
                        ..top
                    },
                ),
            ),
            Flow::Call { body, n, first, slot } => self.activate(
                m.with_top(ActV { pending: Some(Pending { n, slot }), ..top }),
                body,
                self.call_seeds(n as int, first as int),
                Seq::empty(),
            ),
            Flow::Float { call, n } => (
                self,
                m.with_top(
                    ActV { pending: Some(Pending { n, slot: None }), ..top },
                ).with_status(Status::Float(call)),
            ),
            Flow::Compiled { index, n, first, slot } => (
                self,
                m.with_top(ActV { pending: Some(Pending { n, slot }), ..top }).with_status(
                    Status::Compiled {
                        index,
                        nargs: if first <= n {
                            (n - first) as usize
                        } else {
                            0
                        },
                    },
                ),
            ),
        }
    }

    /// One statement of a running program.
    #[verifier::opaque]
    pub open spec fn step(self, m: MachineV) -> (State, MachineV) {
        if m.status != Status::Running || m.acts.len() == 0 {
            (self, m)
        } else {
            let top = m.acts.last();
            if top.ip >= top.body.code@.len() {
                (self, m.with_status(Status::Malformed))
            } else {
                let (s, flow) = self.exec_stmt(
                    top.base as int,
                    top.body.nslots as int,
                    top.ip as int,
                    top.body.code@[top.ip as int],
                );
                s.follow(m, flow)
            }
        }
    }

    /// At most `n` statements of a program, up to its next pause.
    pub open spec fn run(self, m: MachineV, n: nat) -> (State, MachineV)
        decreases n,
    {
        if n == 0 || m.status != Status::Running || m.acts.len() == 0 {
            (self, m)
        } else {
            let (s, m1) = self.step(m);
            s.run(m1, (n - 1) as nat)
        }
    }

    /// The program after the reply to a floating-point request: the bits of the
    /// result, or for a comparison zero for false.
    #[verifier::opaque]
    pub open spec fn resume_float(self, m: MachineV, bits: u64) -> (State, MachineV) {
        match m.status {
            Status::Float(call) if m.acts.len() > 0 => {
                let (s, v) = if compares(call.op) {
                    (self, self.box_bool(bits != 0))
                } else {
                    self.box64(id::FLOAT64, bits)
                };
                s.answer(m, Ok(Value(v)))
            },
            _ => (self, m),
        }
    }

    /// The program after a request was answered.
    pub open spec fn answer(self, m: MachineV, r: Result<Value, Value>) -> (State, MachineV) {
        let top = m.acts.last();
        let n = match top.pending {
            Some(p) => p.n as int,
            None => 0,
        };
        let s = self.pop_roots(n);
        let m1 = m.with_status(Status::Running);
        match r {
            Ok(v) => s.deliver(m1, v),
            Err(e) => s.raise(m1, e, true),
        }
    }

    /// The program after the reply of a compiled method.
    #[verifier::opaque]
    pub open spec fn resume_compiled(
        self,
        m: MachineV,
        r: Result<Value, Value>,
    ) -> (State, MachineV) {
        match m.status {
            Status::Compiled { index, nargs } if m.acts.len() > 0 => self.answer(m, r),
            _ => (self, m),
        }
    }
}

} // verus!
