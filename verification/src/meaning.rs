//! What emitted code computes.
//!
//! A small machine gives the instructions without jumps their meaning: locals, a stack of
//! values, and what a host answers to calls and loads. The code emitted for a statement
//! is run on it, and what it leaves behind is told in terms of the statement's operands.

use vstd::prelude::*;
use crate::bytes::utf8;
use crate::emit_spec::{
    edge_index, has_value, is_hazard, lay_out, lay_out_one, move_of, move_value, moves, no_layout,
    term_of, unbox_code, value_type, wrapper_code, EmitV, LayoutV, BOX, NEWREF, REGBASE, SPECSIG,
    TOPADDR, UNBOX,
};
use crate::fixture::{string_bytes, Fixture, Node, Operand};
use crate::relooper::Term;
use crate::intrinsics::wrap;
use crate::value::bits_of;
use crate::wasm::{Access, Arith, Const, Indexed, Insn, Plain};
use crate::words::int_at;

verus! {

/// A value of the machine.
pub enum Val {
    I32(i32),
    I64(i64),
}

/// The machine: its locals, its stack, and the 32-bit words that were stored, the last
/// one last.
#[verifier::ext_equal]
pub struct Mach {
    pub locals: Seq<Val>,
    pub stack: Seq<Val>,
    pub stored: Seq<(int, i32)>,
}

/// What the host answers: to the call of a function, and to loads of eight and of four
/// bytes; and how many arguments the native function takes.
pub struct Host {
    pub call: spec_fn(u32, Seq<Val>) -> Val,
    pub load: spec_fn(int) -> i64,
    pub word: spec_fn(int) -> i32,
    pub nargs: nat,
}

/// How many arguments a function takes.
pub open spec fn arity(h: Host, f: u32) -> Option<nat> {
    if f == BOX || f == UNBOX || f == NEWREF {
        Some(1)
    } else if f == TOPADDR || f == REGBASE {
        Some(0)
    } else if f == SPECSIG {
        Some(h.nargs)
    } else {
        None
    }
}

/// One where something holds, else zero.
pub open spec fn truth(b: bool) -> Val {
    Val::I32(
        if b {
            1
        } else {
            0
        },
    )
}

/// What an operation on two 64-bit integers gives, by the instruction's definition:
/// arithmetic is modulo two to the sixty-fourth, and a comparison gives one or zero.
pub open spec fn computed(op: Arith, a: i64, b: i64) -> Val {
    match op {
        Arith::Add => Val::I64(wrap(a + b)),
        Arith::Sub => Val::I64(wrap(a - b)),
        Arith::Mul => Val::I64(wrap(a * b)),
        Arith::And => Val::I64(a & b),
        Arith::Or => Val::I64(a | b),
        Arith::Xor => Val::I64(a ^ b),
        Arith::LeS => truth(a <= b),
        Arith::LtS => truth(a < b),
        Arith::LeU => truth(bits_of(a) <= bits_of(b)),
        Arith::LtU => truth(bits_of(a) < bits_of(b)),
        Arith::Eq => truth(a == b),
        Arith::Ne => truth(a != b),
    }
}

impl Mach {
    /// With a value on top of the stack.
    pub open spec fn push(self, v: Val) -> Mach {
        Mach { stack: self.stack.push(v), ..self }
    }

    /// With the topmost `n` values gone.
    pub open spec fn pop(self, n: int) -> Mach {
        Mach { stack: self.stack.take(self.stack.len() - n), ..self }
    }

    /// The value `k` below the top.
    pub open spec fn top(self, k: int) -> Val {
        self.stack[self.stack.len() - 1 - k]
    }
}

/// The machine after an instruction without jumps; none where it is stuck.
pub open spec fn obey(h: Host, i: Insn, m: Mach) -> Option<Mach> {
    let n = m.stack.len();
    match i {
        Insn::Const(Const::I64(x)) => Some(m.push(Val::I64(x))),
        Insn::Const(Const::I32(x)) => Some(m.push(Val::I32(x))),
        Insn::Index(Indexed::LocalGet, l) => if l < m.locals.len() {
            Some(m.push(m.locals[l as int]))
        } else {
            None
        },
        Insn::Index(Indexed::LocalSet, l) => if l < m.locals.len() && n >= 1 {
            Some(Mach { locals: m.locals.update(l as int, m.top(0)), ..m.pop(1) })
        } else {
            None
        },
        Insn::Index(Indexed::Call, f) => match arity(h, f) {
            Some(k) => if k <= n {
                Some(m.pop(k as int).push((h.call)(f, m.stack.skip(n - k))))
            } else {
                None
            },
            None => None,
        },
        Insn::Arith(op) => if n >= 2 {
            match (m.top(1), m.top(0)) {
                (Val::I64(a), Val::I64(b)) => Some(m.pop(2).push(computed(op, a, b))),
                _ => None,
            }
        } else {
            None
        },
        Insn::Plain(Plain::I32Add) => if n >= 2 {
            match (m.top(1), m.top(0)) {
                (Val::I32(a), Val::I32(b)) => Some(
                    m.pop(2).push(Val::I32(wrap32(a + b))),
                ),
                _ => None,
            }
        } else {
            None
        },
        Insn::Mem(Access::I64Load, off, _) => if n >= 1 {
            match m.top(0) {
                Val::I32(a) => Some(m.pop(1).push(Val::I64((h.load)(address(a) + off)))),
                _ => None,
            }
        } else {
            None
        },
        Insn::Mem(Access::I32Load, off, _) => if n >= 1 {
            match m.top(0) {
                Val::I32(a) => Some(m.pop(1).push(Val::I32((h.word)(address(a) + off)))),
                _ => None,
            }
        } else {
            None
        },
        Insn::Mem(Access::I32Store, off, _) => if n >= 2 {
            match (m.top(1), m.top(0)) {
                (Val::I32(a), Val::I32(x)) => Some(
                    Mach { stored: m.stored.push((address(a) + off, x)), ..m.pop(2) },
                ),
                _ => None,
            }
        } else {
            None
        },
        _ => None,
    }
}

/// A number modulo two to the thirty-second, as a signed one.
pub open spec fn wrap32(x: int) -> i32 {
    let y = x % 0x1_0000_0000;
    (if y < 0x8000_0000 {
        y
    } else {
        y - 0x1_0000_0000
    }) as i32
}

/// The address that a 32-bit value stands for.
pub open spec fn address(a: i32) -> int {
    if a < 0 {
        a + 0x1_0000_0000
    } else {
        a as int
    }
}

/// The machine after some instructions; none where it is stuck.
pub open spec fn obeyed(h: Host, code: Seq<Insn>, m: Mach) -> Option<Mach>
    decreases code.len(),
{
    if code.len() == 0 {
        Some(m)
    } else {
        match obeyed(h, code.drop_last(), m) {
            Some(k) => obey(h, code.last(), k),
            None => None,
        }
    }
}

/// What the code emitted between two emitters does.
pub open spec fn effect(h: Host, a: EmitV, b: EmitV, m: Mach) -> Option<Mach> {
    obeyed(h, b.insns.skip(a.insns.len() as int), m)
}

/// The value of an operand: an argument is in the local two below its number, for the
/// function itself is the first; a statement's result is in the statement's local; a
/// constant is what its text says.
pub open spec fn operand_value(e: EmitV, op: Operand, locals: Seq<Val>) -> Option<Val> {
    match op {
        Operand::Ssa { id } => match e.ssa_local[id - 1] {
            Some(l) => if l < locals.len() {
                Some(locals[l as int])
            } else {
                None
            },
            None => None,
        },
        Operand::Arg { n } => if 2 <= n < locals.len() + 2 {
            Some(locals[n - 2])
        } else {
            None
        },
        Operand::Const { t, v } => if t@ == "Int64"@ {
            match int_at(string_bytes(v), 0, string_bytes(v).len() as int) {
                Some(x) => Some(Val::I64(x)),
                None => None,
            }
        } else if t@ == "Bool"@ {
            Some(truth(v@ == "true"@))
        } else {
            None
        },
        Operand::Nothing => None,
    }
}

/// Whether `b` is `a` with some instructions more.
pub open spec fn extends(a: EmitV, b: EmitV) -> bool {
    &&& b == (EmitV { insns: b.insns, err: b.err, ..a })
    &&& a.insns.is_prefix_of(b.insns)
}

/// Texts with the same bytes are the same.
pub proof fn lemma_same_text(a: Seq<char>, b: Seq<char>)
    requires
        vstd::utf8::encode_utf8(a) == vstd::utf8::encode_utf8(b),
    ensures
        a == b,
{
    vstd::utf8::encode_utf8_decode_utf8(a);
    vstd::utf8::encode_utf8_decode_utf8(b);
}

/// One instruction more.
proof fn lemma_put(h: Host, a: EmitV, b: EmitV, i: Insn, m: Mach)
    requires
        extends(a, b),
    ensures
        extends(a, b.put(i)),
        b.put(i).err == b.err,
        effect(h, a, b.put(i), m) == match effect(h, a, b, m) {
            Some(k) => obey(h, i, k),
            None => None,
        },
{
    let n = a.insns.len() as int;
    let c = b.put(i).insns.skip(n);
    assert(c.drop_last() =~= b.insns.skip(n));
    assert(c.last() == i);
}

/// No instruction yet.
proof fn lemma_none(h: Host, a: EmitV, m: Mach)
    ensures
        extends(a, a),
        effect(h, a, a, m) == Some(m),
{
    assert(a.insns.skip(a.insns.len() as int) =~= Seq::<Insn>::empty());
}

/// The code of an operand leaves its value on the stack.
proof fn lemma_operand(h: Host, a: EmitV, b: EmitV, op: Operand, m: Mach, k: Mach)
    requires
        extends(a, b),
        effect(h, a, b, m) == Some(k),
        operand_value(a, op, k.locals) is Some,
    ensures
        extends(a, b.operand(op)),
        b.operand(op).err == b.err,
        effect(h, a, b.operand(op), m) == Some(k.push(operand_value(a, op, k.locals)->Some_0)),
{
    match op {
        Operand::Ssa { id } => {
            let l = a.ssa_local[id - 1]->Some_0;
            lemma_put(h, a, b, Insn::Index(Indexed::LocalGet, l), m);
        },
        Operand::Arg { n } => {
            lemma_put(h, a, b, Insn::Index(Indexed::LocalGet, (n - 2) as u32), m);
        },
        Operand::Const { t, v } => {
            if t@ == "Int64"@ {
                let x = int_at(string_bytes(v), 0, string_bytes(v).len() as int)->Some_0;
                lemma_put(h, a, b, Insn::Const(Const::I64(x)), m);
            } else {
                assert(string_bytes(t) != utf8("Int64")) by {
                    if string_bytes(t) == utf8("Int64") {
                        lemma_same_text(t@, "Int64"@);
                    }
                }
                if string_bytes(v) == utf8("true") {
                    lemma_same_text(v@, "true"@);
                }
                let x = if string_bytes(v) == utf8("true") {
                    1i32
                } else {
                    0i32
                };
                lemma_put(h, a, b, Insn::Const(Const::I32(x)), m);
            }
        },
        Operand::Nothing => {},
    }
}

/// The code that stores a result takes it from the stack.
proof fn lemma_set(h: Host, a: EmitV, b: EmitV, i: int, m: Mach, k: Mach, l: u32)
    requires
        extends(a, b),
        effect(h, a, b, m) == Some(k),
        k.stack.len() > 0,
        a.ssa_local[i] == Some(l),
        a.ref_slot[i] is None,
        l < k.locals.len(),
    ensures
        extends(a, b.set_ssa(i)),
        b.set_ssa(i).err == b.err,
        effect(h, a, b.set_ssa(i), m) == Some(
            Mach { locals: k.locals.update(l as int, k.top(0)), ..k.pop(1) },
        ),
{
    lemma_put(h, a, b, Insn::Index(Indexed::LocalSet, l), m);
}

/// The code of a call of an operation on two operands leaves its result in the local of
/// the statement, and changes nothing else.
proof fn lemma_operation(
    h: Host,
    e: EmitV,
    i: int,
    f: String,
    args: Vec<Operand>,
    m: Mach,
    l: u32,
    op: Arith,
    a: i64,
    b: i64,
)
    requires
        e.fx.stmts@[i].stmt == (Node::Call { f, args }),
        args@.len() == 2,
        operand_value(e, args@[0], m.locals) == Some(Val::I64(a)),
        operand_value(e, args@[1], m.locals) == Some(Val::I64(b)),
        crate::emit_spec::intrinsic_of(string_bytes(f)) == Some(op),
        e.ssa_local[i] == Some(l),
        e.ref_slot[i] is None,
        l < m.locals.len(),
    ensures
        e.stmt(i).err == e.err,
        effect(h, e, e.stmt(i), m) == Some(
            Mach { locals: m.locals.update(l as int, computed(op, a, b)), ..m },
        ),
{
    lemma_none(h, e, m);
    lemma_operand(h, e, e, args@[0], m, m);
    let e1 = e.operand(args@[0]);
    let m1 = m.push(Val::I64(a));
    lemma_operand(h, e, e1, args@[1], m, m1);
    let e2 = e1.operand(args@[1]);
    let m2 = m1.push(Val::I64(b));
    assert(e2.operands(args@, 2) == e2);
    assert(e1.operands(args@, 1) == e2);
    assert(e.operands(args@, 0) == e2);
    lemma_put(h, e, e2, Insn::Arith(op), m);
    let e3 = e2.put(Insn::Arith(op));
    assert(m2.pop(2) =~= m);
    let m3 = m.push(computed(op, a, b));
    lemma_set(h, e, e3, i, m, m3, l);
    assert(m3.pop(1) =~= m);
}

/// Intrinsics compute what their names say. The code emitted for a call of an intrinsic
/// on two integers leaves in the local of the statement the value of the intrinsic on
/// the values of the operands, and changes no other local and nothing on the stack.
pub proof fn law_intrinsics_compute(
    h: Host,
    e: EmitV,
    i: int,
    f: String,
    args: Vec<Operand>,
    m: Mach,
    l: u32,
    a: i64,
    b: i64,
)
    requires
        e.fx.stmts@[i].stmt == (Node::Call { f, args }),
        args@.len() == 2,
        operand_value(e, args@[0], m.locals) == Some(Val::I64(a)),
        operand_value(e, args@[1], m.locals) == Some(Val::I64(b)),
        e.ssa_local[i] == Some(l),
        e.ref_slot[i] is None,
        l < m.locals.len(),
    ensures
        ({
            let gives = |v: Val|
                e.stmt(i).err == e.err && effect(h, e, e.stmt(i), m) == Some(
                    Mach { locals: m.locals.update(l as int, v), ..m },
                );
            &&& f@ == "add_int"@ ==> gives(Val::I64(wrap(a + b)))
            &&& f@ == "sub_int"@ ==> gives(Val::I64(wrap(a - b)))
            &&& f@ == "mul_int"@ ==> gives(Val::I64(wrap(a * b)))
            &&& f@ == "and_int"@ ==> gives(Val::I64(a & b))
            &&& f@ == "or_int"@ ==> gives(Val::I64(a | b))
            &&& f@ == "xor_int"@ ==> gives(Val::I64(a ^ b))
            &&& f@ == "sle_int"@ ==> gives(truth(a <= b))
            &&& f@ == "slt_int"@ ==> gives(truth(a < b))
            &&& f@ == "ule_int"@ ==> gives(truth(bits_of(a) <= bits_of(b)))
            &&& f@ == "ult_int"@ ==> gives(truth(bits_of(a) < bits_of(b)))
            &&& f@ == "eq_int"@ ==> gives(truth(a == b))
            &&& f@ == "ne_int"@ ==> gives(truth(a != b))
        }),
{
    lemma_names(f);
    match crate::emit_spec::intrinsic_of(string_bytes(f)) {
        Some(op) => {
            lemma_operation(h, e, i, f, args, m, l, op, a, b);
        },
        None => {},
    }
}

/// The operation of each intrinsic.
proof fn lemma_names(f: String)
    ensures
        ({
            let op = crate::emit_spec::intrinsic_of(string_bytes(f));
            &&& f@ == "add_int"@ ==> op == Some(Arith::Add)
            &&& f@ == "sub_int"@ ==> op == Some(Arith::Sub)
            &&& f@ == "mul_int"@ ==> op == Some(Arith::Mul)
            &&& f@ == "and_int"@ ==> op == Some(Arith::And)
            &&& f@ == "or_int"@ ==> op == Some(Arith::Or)
            &&& f@ == "xor_int"@ ==> op == Some(Arith::Xor)
            &&& f@ == "sle_int"@ ==> op == Some(Arith::LeS)
            &&& f@ == "slt_int"@ ==> op == Some(Arith::LtS)
            &&& f@ == "ule_int"@ ==> op == Some(Arith::LeU)
            &&& f@ == "ult_int"@ ==> op == Some(Arith::LtU)
            &&& f@ == "eq_int"@ ==> op == Some(Arith::Eq)
            &&& f@ == "ne_int"@ ==> op == Some(Arith::Ne)
        }),
{
    reveal_strlit("add_int");
    reveal_strlit("sub_int");
    reveal_strlit("mul_int");
    reveal_strlit("and_int");
    reveal_strlit("or_int");
    reveal_strlit("xor_int");
    reveal_strlit("sle_int");
    reveal_strlit("slt_int");
    reveal_strlit("ule_int");
    reveal_strlit("ult_int");
    reveal_strlit("eq_int");
    reveal_strlit("ne_int");
    assert forall|w: &str| #[trigger] utf8(w) == string_bytes(f) implies w@ == f@ by {
        lemma_same_text(w@, f@);
    }
    let (a, b, c) = ("add_int"@, "sub_int"@, "mul_int"@);
    assert(a[0] == 'a' && b[0] == 's' && c[0] == 'm' && a[1] == 'd' && b[1] == 'u' && c[1] == 'u');
    let (d, o, x) = ("and_int"@, "or_int"@, "xor_int"@);
    assert(d[0] == 'a' && d[1] == 'n' && o[0] == 'o' && x[0] == 'x');
    let (p, q, r, s) = ("sle_int"@, "slt_int"@, "ule_int"@, "ult_int"@);
    assert(p[0] == 's' && p[1] == 'l' && p[2] == 'e' && q[0] == 's' && q[1] == 'l' && q[2] == 't');
    assert(r[0] == 'u' && r[1] == 'l' && r[2] == 'e' && s[0] == 'u' && s[1] == 'l' && s[2] == 't');
    let (y, z) = ("eq_int"@, "ne_int"@);
    assert(y[0] == 'e' && z[0] == 'n');
}

/// The code that stores a result, with a reference put into its slot of the shadow stack
/// as well.
proof fn lemma_set_any(h: Host, a: EmitV, b: EmitV, i: int, m: Mach, k: Mach, l: u32)
    requires
        extends(a, b),
        effect(h, a, b, m) == Some(k),
        k.stack.len() > 0,
        a.ssa_local[i] == Some(l),
        l < k.locals.len(),
        a.ref_slot[i] matches Some(n) ==> {
            &&& a.gcbase < k.locals.len() && a.gcbase != l && k.locals[a.gcbase as int] is I32
            &&& k.top(0) is I32
            &&& n * 4 <= u64::MAX
        },
    ensures
        extends(a, b.set_ssa(i)),
        b.set_ssa(i).err == b.err,
        effect(h, a, b.set_ssa(i), m) == Some(
            Mach {
                locals: k.locals.update(l as int, k.top(0)),
                stored: match a.ref_slot[i] {
                    None => k.stored,
                    Some(n) => k.stored.push(
                        (address(k.locals[a.gcbase as int]->I32_0) + 4 * n, k.top(0)->I32_0),
                    ),
                },
                ..k.pop(1)
            },
        ),
{
    let set = Insn::Index(Indexed::LocalSet, l);
    lemma_put(h, a, b, set, m);
    let b1 = b.put(set);
    let k1 = Mach { locals: k.locals.update(l as int, k.top(0)), ..k.pop(1) };
    if let Some(n) = a.ref_slot[i] {
        let g1 = Insn::Index(Indexed::LocalGet, b1.gcbase);
        lemma_put(h, a, b1, g1, m);
        let b2 = b1.put(g1);
        let k2 = k1.push(k1.locals[a.gcbase as int]);
        let g2 = Insn::Index(Indexed::LocalGet, l);
        lemma_put(h, a, b2, g2, m);
        let b3 = b2.put(g2);
        let k3 = k2.push(k.top(0));
        let st = Insn::Mem(Access::I32Store, (n * 4) as u64, 2);
        lemma_put(h, a, b3, st, m);
        assert(k3.pop(2) =~= k1);
    }
}

/// A new cell is what the host makes of the operand's value: it becomes the value of the
/// statement, and is kept in the statement's slot of the shadow stack.
pub proof fn law_cells_are_made(
    h: Host,
    e: EmitV,
    i: int,
    t: String,
    args: Vec<Operand>,
    m: Mach,
    l: u32,
    n: u32,
    v: Val,
)
    requires
        e.fx.stmts@[i].stmt == (Node::New { t, args }),
        t@ == "Base.RefValue{Int64}"@,
        args@.len() == 1,
        operand_value(e, args@[0], m.locals) == Some(v),
        e.ssa_local[i] == Some(l),
        e.ref_slot[i] == Some(n),
        l < m.locals.len(),
        e.gcbase < m.locals.len(),
        e.gcbase != l,
        m.locals[e.gcbase as int] is I32,
        (h.call)(NEWREF, seq![v]) is I32,
    ensures
        ({
            let r = (h.call)(NEWREF, seq![v]);
            &&& e.stmt(i).err == e.err
            &&& effect(h, e, e.stmt(i), m) == Some(
                Mach {
                    locals: m.locals.update(l as int, r),
                    stored: m.stored.push(
                        (address(m.locals[e.gcbase as int]->I32_0) + 4 * n, r->I32_0),
                    ),
                    ..m
                },
            )
        }),
{
    lemma_none(h, e, m);
    lemma_operand(h, e, e, args@[0], m, m);
    let e1 = e.operand(args@[0]);
    let m1 = m.push(v);
    let call = Insn::Index(Indexed::Call, NEWREF);
    lemma_put(h, e, e1, call, m);
    let e2 = e1.put(call);
    let r = (h.call)(NEWREF, seq![v]);
    assert(m1.stack.skip(m1.stack.len() - 1) =~= seq![v]);
    assert(m1.pop(1) =~= m);
    let m2 = m.push(r);
    lemma_set_any(h, e, e2, i, m, m2, l);
    assert(m2.pop(1) =~= m);
}

/// Reading a cell loads the eight bytes that the reference stands for, counted from the
/// base of the heap region.
pub proof fn law_cells_are_read(
    h: Host,
    e: EmitV,
    i: int,
    obj: Operand,
    field: String,
    m: Mach,
    l: u32,
    base: i32,
    a: i32,
)
    requires
        e.fx.stmts@[i].stmt == (Node::GetField { obj, field }),
        field@ == "x"@,
        operand_value(e, obj, m.locals) == Some(Val::I32(a)),
        e.rb < m.locals.len(),
        m.locals[e.rb as int] == Val::I32(base),
        e.ssa_local[i] == Some(l),
        e.ref_slot[i] is None,
        l < m.locals.len(),
    ensures
        e.stmt(i).err == e.err,
        effect(h, e, e.stmt(i), m) == Some(
            Mach {
                locals: m.locals.update(
                    l as int,
                    Val::I64((h.load)(address(wrap32(base + a)))),
                ),
                ..m
            },
        ),
{
    lemma_none(h, e, m);
    let g = Insn::Index(Indexed::LocalGet, e.rb);
    lemma_put(h, e, e, g, m);
    let e1 = e.put(g);
    let m1 = m.push(Val::I32(base));
    lemma_operand(h, e, e1, obj, m, m1);
    let e2 = e1.operand(obj);
    let m2 = m1.push(Val::I32(a));
    let plus = Insn::Plain(Plain::I32Add);
    lemma_put(h, e, e2, plus, m);
    let e3 = e2.put(plus);
    assert(m2.pop(2) =~= m);
    let m3 = m.push(Val::I32(wrap32(base + a)));
    let ld = Insn::Mem(Access::I64Load, crate::emit_spec::DATA_OFF, 3);
    lemma_put(h, e, e3, ld, m);
    let e4 = e3.put(ld);
    assert(m3.pop(1) =~= m);
    let m4 = m.push(Val::I64((h.load)(address(wrap32(base + a)))));
    lemma_set(h, e, e4, i, m, m4, l);
    assert(m4.pop(1) =~= m);
}

/// A return leaves the value of its operand on the stack, and then returns; a function
/// that claimed slots of the shadow stack first gives them back: the top is again where
/// the slots begin.
pub proof fn law_returns_give_the_value(h: Host, e: EmitV, x: int, val: Operand, m: Mach, v: Val)
    requires
        e.fx.stmts@[e.fx.blocks@[x].last - 1].stmt == (Node::Return { val }),
        operand_value(e, val, m.locals) == Some(v),
        e.has_frame ==> {
            &&& e.ta < m.locals.len() && m.locals[e.ta as int] is I32
            &&& e.gcbase < m.locals.len() && m.locals[e.gcbase as int] is I32
        },
    ensures
        ({
            let b = e.ret(x);
            let k = EmitV { insns: b.insns.drop_last(), ..b };
            &&& b.err == e.err
            &&& b.insns.last() == Insn::Plain(Plain::Return)
            &&& effect(h, e, k, m) == Some(
                Mach {
                    stored: if e.has_frame {
                        m.stored.push(
                            (
                                address(m.locals[e.ta as int]->I32_0),
                                m.locals[e.gcbase as int]->I32_0,
                            ),
                        )
                    } else {
                        m.stored
                    },
                    ..m.push(v)
                },
            )
        }),
{
    lemma_none(h, e, m);
    let s = if e.has_frame {
        e.get(e.ta).get(e.gcbase).put(Insn::Mem(Access::I32Store, 0, 2))
    } else {
        e
    };
    let m1 = if e.has_frame {
        let g1 = Insn::Index(Indexed::LocalGet, e.ta);
        lemma_put(h, e, e, g1, m);
        let g2 = Insn::Index(Indexed::LocalGet, e.gcbase);
        lemma_put(h, e, e.put(g1), g2, m);
        let st = Insn::Mem(Access::I32Store, 0, 2);
        lemma_put(h, e, e.put(g1).put(g2), st, m);
        let k = m.push(m.locals[e.ta as int]).push(m.locals[e.gcbase as int]);
        assert(k.pop(2) =~= m);
        Mach {
            stored: m.stored.push(
                (address(m.locals[e.ta as int]->I32_0), m.locals[e.gcbase as int]->I32_0),
            ),
            ..m
        }
    } else {
        m
    };
    lemma_operand(h, e, s, val, m, m1);
    let b = e.ret(x);
    let k = EmitV { insns: b.insns.drop_last(), ..b };
    assert(k.insns =~= s.operand(val).insns);
}

/// The condition of a block is on the stack when its `if` is opened. The arm for what is
/// not zero leads to the next block, and the other one to the block that the statement
/// names.
pub proof fn law_conditions_choose(
    h: Host,
    e: EmitV,
    x: int,
    cond: Operand,
    dest: u32,
    m: Mach,
    v: Val,
)
    requires
        0 <= x < e.fx.blocks@.len() < usize::MAX,
        e.fx.stmts@[e.fx.blocks@[x].last - 1].stmt == (Node::GotoIfNot { cond, dest }),
        dest > 0,
        operand_value(e, cond, m.locals) == Some(v),
    ensures
        ({
            let b = e.open_if(x);
            let k = EmitV { insns: b.insns.drop_last(), ..b };
            &&& b.err == e.err
            &&& b.insns.last() == Insn::Plain(Plain::If)
            &&& effect(h, e, k, m) == Some(m.push(v))
            &&& term_of(e.fx, x) matches Term::If { then_, else_ } && then_ == x + 1 && else_
                == dest - 1
        }),
{
    lemma_none(h, e, m);
    lemma_operand(h, e, e, cond, m, m);
    let b = e.open_if(x);
    let k = EmitV { insns: b.insns.drop_last(), ..b };
    assert(k.insns =~= e.operand(cond).insns);
}

/// Whether the first `i` statements have locals of their own behind the arguments, in
/// order, exactly those with a value, each of the type that its value has.
pub open spec fn own_locals(fx: Fixture, l: LayoutV, i: int, nargs: int) -> bool {
    &&& l.ssa_local.len() == i
    &&& l.ref_slot.len() == i
    &&& forall|a: int|
        0 <= a < i ==> (has_value(fx.stmts@[a].stmt) <==> (#[trigger] l.ssa_local[a]) is Some)
    &&& forall|a: int|
        0 <= a < i && (#[trigger] l.ssa_local[a]) is Some ==> {
            let k = l.ssa_local[a]->Some_0;
            &&& nargs <= k < nargs + l.locals.len()
            &&& value_type(string_bytes(fx.stmts@[a].ty)) == Some(l.locals[k - nargs])
        }
    &&& forall|a: int, b: int|
        0 <= a < b < i && (#[trigger] l.ssa_local[a]) is Some && (#[trigger] l.ssa_local[b]) is Some
            ==> l.ssa_local[a]->Some_0 < l.ssa_local[b]->Some_0
    &&& l.locals.len() <= i
}

proof fn lemma_own_locals(fx: Fixture, l: LayoutV, i: int, nargs: int)
    requires
        0 <= i <= fx.stmts@.len(),
        0 <= nargs,
        nargs + fx.stmts@.len() <= u32::MAX,
        own_locals(fx, l, i, nargs),
    ensures
        lay_out(fx, l, i, nargs) matches Ok(e) ==> own_locals(
            fx,
            e,
            fx.stmts@.len() as int,
            nargs,
        ),
    decreases fx.stmts@.len() - i,
{
    if i < fx.stmts@.len() {
        match lay_out_one(fx, l, i, nargs) {
            Err(_) => {},
            Ok(l1) => {
                assert(own_locals(fx, l1, i + 1, nargs)) by {
                    assert forall|a: int, b: int|
                        0 <= a < b < i + 1 && (#[trigger] l1.ssa_local[a]) is Some && (
                        #[trigger] l1.ssa_local[b]) is Some implies l1.ssa_local[a]->Some_0
                        < l1.ssa_local[b]->Some_0 by {
                        assert(l1.ssa_local[a] == l.ssa_local[a]);
                        if b < i {
                            assert(l1.ssa_local[b] == l.ssa_local[b]);
                        }
                    }
                    assert forall|a: int| 0 <= a < i + 1 && (#[trigger] l1.ssa_local[a]) is Some implies {
                        let k = l1.ssa_local[a]->Some_0;
                        &&& nargs <= k < nargs + l1.locals.len()
                        &&& value_type(string_bytes(fx.stmts@[a].ty)) == Some(l1.locals[k - nargs])
                    } by {
                        if a < i {
                            assert(l1.ssa_local[a] == l.ssa_local[a]);
                        }
                    }
                    assert forall|a: int| 0 <= a < i + 1 implies (has_value(fx.stmts@[a].stmt)
                        <==> (#[trigger] l1.ssa_local[a]) is Some) by {
                        if a < i {
                            assert(l1.ssa_local[a] == l.ssa_local[a]);
                        }
                    }
                }
                lemma_own_locals(fx, l1, i + 1, nargs);
            },
        }
    }
}

/// Every statement with a value has a local of its own, of its value's type: no two share
/// one, none shares one with an argument, and no other statement has one.
pub proof fn law_values_have_locals(fx: Fixture, nargs: int)
    requires
        0 <= nargs,
        nargs + fx.stmts@.len() <= u32::MAX,
    ensures
        lay_out(fx, no_layout(), 0, nargs) matches Ok(l) ==> own_locals(
            fx,
            l,
            fx.stmts@.len() as int,
            nargs,
        ),
{
    lemma_own_locals(fx, no_layout(), 0, nargs);
}

/// Whether statement `i` is a choice that takes the value `j` on the edge from block `x`:
/// the first of its values that is for that edge.
pub open spec fn takes(fx: Fixture, i: int, x: int, j: int) -> bool {
    match fx.stmts@[i].stmt {
        Node::Phi { edges, values } => {
            &&& 0 <= j < edges@.len()
            &&& edges@[j] == x + 1
            &&& forall|k: int| 0 <= k < j ==> #[trigger] edges@[k] != x + 1
        },
        _ => false,
    }
}

proof fn lemma_edge(edges: Seq<u32>, e: int, j: int)
    requires
        0 <= j <= edges.len(),
        forall|k: int| 0 <= k < j ==> #[trigger] edges[k] != e,
    ensures
        match edge_index(edges, e, j) {
            Some(i) => 0 <= i < edges.len() && edges[i] == e && forall|k: int|
                0 <= k < i ==> #[trigger] edges[k] != e,
            None => forall|k: int| 0 <= k < edges.len() ==> #[trigger] edges[k] != e,
        },
    decreases edges.len() - j,
{
    if j < edges.len() && edges[j] != e {
        lemma_edge(edges, e, j + 1);
    }
}

/// The choices of some statements for an edge: each statement once, in order, with the
/// value that it takes.
proof fn lemma_moves(fx: Fixture, x: int, i: int, end: int)
    requires
        0 <= i,
        end <= fx.stmts@.len() <= usize::MAX,
        forall|a: int|
            #![trigger fx.stmts@[a]]
            0 <= a < fx.stmts@.len() ==> (fx.stmts@[a].stmt matches Node::Phi { edges, .. }
                ==> edges@.len() <= usize::MAX),
    ensures
        ({
            let ms = moves(fx, x, i, end);
            &&& forall|k: int|
                0 <= k < ms.len() ==> {
                    let m = #[trigger] ms[k];
                    i <= m.0 < end && takes(fx, m.0 as int, x, m.1 as int)
                }
            &&& forall|k: int, n: int|
                0 <= k < n < ms.len() ==> (#[trigger] ms[k]).0 < (#[trigger] ms[n]).0
            &&& forall|a: int, j: int|
                i <= a < end && #[trigger] takes(fx, a, x, j) ==> exists|k: int|
                    0 <= k < ms.len() && #[trigger] ms[k] == (a as usize, j as usize)
        }),
    decreases end - i,
{
    if i < end {
        lemma_moves(fx, x, i + 1, end);
        let rest = moves(fx, x, i + 1, end);
        let ms = moves(fx, x, i, end);
        match fx.stmts@[i].stmt {
            Node::Phi { edges, values } => {
                lemma_edge(edges@, x + 1, 0);
            },
            _ => {},
        }
        let shift = match move_of(fx, i, x) {
            Some(_) => 1int,
            None => 0int,
        };
        assert forall|k: int| 0 <= k < ms.len() implies {
            let m = #[trigger] ms[k];
            i <= m.0 < end && takes(fx, m.0 as int, x, m.1 as int)
        } by {
            if k >= shift {
                assert(ms[k] == rest[k - shift]);
            }
        }
        assert forall|k: int, n: int| 0 <= k < n < ms.len() implies (#[trigger] ms[k]).0 < (
        #[trigger] ms[n]).0 by {
            assert(ms[n] == rest[n - shift]);
            if k >= shift {
                assert(ms[k] == rest[k - shift]);
            }
        }
        assert forall|a: int, j: int| i <= a < end && #[trigger] takes(fx, a, x, j) implies exists|
            k: int,
        | 0 <= k < ms.len() && #[trigger] ms[k] == (a as usize, j as usize) by {
            if a == i {
                match fx.stmts@[i].stmt {
                    Node::Phi { edges, values } => {
                        let j1 = edge_index(edges@, x + 1, 0)->Some_0;
                        assert(j1 == j) by {
                            if j1 < j {
                                assert(edges@[j1] != x + 1);
                            }
                            if j < j1 {
                                assert(edges@[j] != x + 1);
                            }
                        }
                    },
                    _ => {},
                }
                assert(ms[0] == (a as usize, j as usize));
            } else {
                let k = choose|k: int|
                    0 <= k < rest.len() && #[trigger] rest[k] == (a as usize, j as usize);
                assert(ms[k + shift] == rest[k]);
            }
        }
    }
}

/// Where no choice reads another one, the fault stays as it was.
proof fn lemma_no_hazard(e: EmitV, ms: Seq<(usize, usize)>, k: int, target: int)
    requires
        0 <= k <= ms.len(),
        e.err is None,
        e.hazards(ms, k, target).err is None,
    ensures
        e.hazards(ms, k, target) == e,
        forall|n: int|
            k <= n < ms.len() ==> !is_hazard(
                e.fx,
                move_value(e.fx, #[trigger] ms[n]),
                e.fx.blocks@[target].first - 1,
                e.fx.blocks@[target].last as int,
            ),
    decreases ms.len() - k,
{
    if k < ms.len() {
        let b = e.fx.blocks@[target];
        if is_hazard(e.fx, move_value(e.fx, ms[k]), b.first - 1, b.last as int) {
            let f = e.fail(
                utf8("φ-swap hazard in block ") + crate::bytes::decimal((target + 1) as nat),
            );
            lemma_failed(f, ms, k + 1, target);
        } else {
            lemma_no_hazard(e, ms, k + 1, target);
        }
    }
}

/// A fault stays.
proof fn lemma_failed(e: EmitV, ms: Seq<(usize, usize)>, k: int, target: int)
    requires
        0 <= k <= ms.len(),
        e.err is Some,
    ensures
        e.hazards(ms, k, target).err == e.err,
    decreases ms.len() - k,
{
    if k < ms.len() {
        lemma_failed(e, ms, k + 1, target);
    }
}

/// Whether the statements' locals are apart from each other and from the arguments.
pub open spec fn locals_apart(e: EmitV, nargs: int) -> bool {
    &&& e.ssa_local.len() == e.fx.stmts@.len()
    &&& forall|a: int|
        0 <= a < e.ssa_local.len() && (#[trigger] e.ssa_local[a]) is Some ==> e.ssa_local[a]->Some_0
            >= nargs
    &&& forall|a: int, b: int|
        0 <= a < e.ssa_local.len() && 0 <= b < e.ssa_local.len() && a != b && (
        #[trigger] e.ssa_local[a]) is Some && (#[trigger] e.ssa_local[b]) is Some
            ==> e.ssa_local[a]->Some_0 != e.ssa_local[b]->Some_0
}

/// Whether an operand is an argument, if it is one at all.
pub open spec fn in_reach(op: Operand, nargs: int, nstmts: int) -> bool {
    match op {
        Operand::Arg { n } => n < nargs + 2,
        Operand::Ssa { id } => 1 <= id <= nstmts,
        _ => true,
    }
}

/// What the choices from `k` on need: locals to go to, and values to take.
pub open spec fn movable(e: EmitV, ms: Seq<(usize, usize)>, m: Mach, nargs: int) -> bool {
    forall|n: int|
        0 <= n < ms.len() ==> {
            let i = (#[trigger] ms[n]).0 as int;
            &&& i < e.fx.stmts@.len()
            &&& e.fx.stmts@[i].stmt is Phi
            &&& e.ssa_local[i] matches Some(l) && l < m.locals.len()
            &&& e.ref_slot[i] is None
            &&& operand_value(e, move_value(e.fx, ms[n]), m.locals) is Some
            &&& in_reach(move_value(e.fx, ms[n]), nargs, e.fx.stmts@.len() as int)
        }
}

/// Whether `k` is `m` with the first `n` choices made, all at once.
pub open spec fn moved(e: EmitV, ms: Seq<(usize, usize)>, n: int, m: Mach, k: Mach) -> bool {
    &&& k.stack == m.stack
    &&& k.stored == m.stored
    &&& k.locals.len() == m.locals.len()
    &&& forall|c: int|
        0 <= c < n ==> Some(k.locals[e.ssa_local[(#[trigger] ms[c]).0 as int]->Some_0 as int])
            == operand_value(e, move_value(e.fx, ms[c]), m.locals)
    &&& forall|p: int|
        0 <= p < m.locals.len() && (forall|c: int|
            0 <= c < n ==> e.ssa_local[(#[trigger] ms[c]).0 as int]->Some_0 != p)
            ==> #[trigger] k.locals[p] == m.locals[p]
}

#[verifier::rlimit(40)]
proof fn lemma_do_moves(
    h: Host,
    a: EmitV,
    b: EmitV,
    ms: Seq<(usize, usize)>,
    n: int,
    m: Mach,
    k: Mach,
    nargs: int,
    first: int,
    last: int,
)
    requires
        0 <= n <= ms.len(),
        extends(a, b),
        effect(h, a, b, m) == Some(k),
        moved(a, ms, n, m, k),
        movable(a, ms, m, nargs),
        locals_apart(a, nargs),
        forall|c: int, d: int|
            0 <= c < d < ms.len() ==> (#[trigger] ms[c]).0 < (#[trigger] ms[d]).0,
        forall|c: int| 0 <= c < ms.len() ==> first <= (#[trigger] ms[c]).0 < last,
        forall|c: int|
            0 <= c < ms.len() ==> !is_hazard(
                a.fx,
                move_value(a.fx, #[trigger] ms[c]),
                first,
                last,
            ),
    ensures
        b.do_moves(ms, n).err == b.err,
        extends(a, b.do_moves(ms, n)),
        effect(h, a, b.do_moves(ms, n), m) matches Some(f) && moved(
            a,
            ms,
            ms.len() as int,
            m,
            f,
        ),
    decreases ms.len() - n,
{
    if n < ms.len() {
        let op = move_value(a.fx, ms[n]);
        let i = ms[n].0 as int;
        let l = a.ssa_local[i]->Some_0;
        let v = operand_value(a, op, m.locals)->Some_0;
        assert(operand_value(a, op, k.locals) == Some(v)) by {
            match op {
                Operand::Ssa { id } => {
                    let p = a.ssa_local[id - 1]->Some_0;
                    assert(!is_hazard(a.fx, op, first, last));
                    assert forall|c: int| 0 <= c < n implies a.ssa_local[(
                    #[trigger] ms[c]).0 as int]->Some_0 != p by {
                        assert(a.fx.stmts@[ms[c].0 as int].stmt is Phi);
                        assert(ms[c].0 as int != id - 1);
                        assert(a.ssa_local[id - 1] is Some);
                        assert(a.ssa_local[ms[c].0 as int] is Some);
                    }
                    assert(k.locals[p as int] == m.locals[p as int]);
                },
                Operand::Arg { n: q } => {
                    let p = q - 2;
                    assert forall|c: int| 0 <= c < n implies a.ssa_local[(
                    #[trigger] ms[c]).0 as int]->Some_0 != p by {
                        assert(a.ssa_local[ms[c].0 as int] is Some);
                    }
                    assert(k.locals[p] == m.locals[p]);
                },
                _ => {},
            }
        }
        lemma_operand(h, a, b, op, m, k);
        let b1 = b.operand(op);
        let k1 = k.push(v);
        lemma_set(h, a, b1, i, m, k1, l);
        let b2 = b1.set_ssa(i);
        let k2 = Mach { locals: k.locals.update(l as int, v), ..k };
        assert(k1.pop(1) =~= k);
        assert(moved(a, ms, n + 1, m, k2)) by {
            assert forall|c: int| 0 <= c < n + 1 implies Some(
                k2.locals[a.ssa_local[(#[trigger] ms[c]).0 as int]->Some_0 as int],
            ) == operand_value(a, move_value(a.fx, ms[c]), m.locals) by {
                if c < n {
                    assert(ms[c].0 < ms[n].0);
                    assert(a.ssa_local[ms[c].0 as int] is Some);
                    assert(a.ssa_local[i] is Some);
                }
            }
            assert forall|p: int|
                0 <= p < m.locals.len() && (forall|c: int|
                    0 <= c < n + 1 ==> a.ssa_local[(#[trigger] ms[c]).0 as int]->Some_0
                        != p) implies #[trigger] k2.locals[p] == m.locals[p] by {
                assert(a.ssa_local[ms[n].0 as int]->Some_0 != p);
                assert(forall|c: int|
                    0 <= c < n ==> a.ssa_local[(#[trigger] ms[c]).0 as int]->Some_0 != p);
                assert(k.locals[p] == m.locals[p]);
            }
        }
        lemma_do_moves(h, a, b2, ms, n + 1, m, k2, nargs, first, last);
    }
}

/// Choices are made all at once. The code for the edge from block `x` to block `target`
/// puts into the local of every choice of `target` the value that the choice has for that
/// edge, as it was before any of them was made; it changes no other local, nothing on the
/// stack, and stores nothing. Taken are choices of integers and truth values.
pub proof fn law_choices_are_made_at_once(
    h: Host,
    e: EmitV,
    x: int,
    target: int,
    m: Mach,
    nargs: int,
)
    requires
        e.err is None,
        e.phi_moves(x, target).err is None,
        0 <= target < e.fx.blocks@.len(),
        1 <= e.fx.blocks@[target].first,
        e.fx.blocks@[target].last <= e.fx.stmts@.len() <= usize::MAX,
        forall|a: int|
            #![trigger e.fx.stmts@[a]]
            0 <= a < e.fx.stmts@.len() ==> (e.fx.stmts@[a].stmt matches Node::Phi { edges, .. }
                ==> edges@.len() <= usize::MAX),
        locals_apart(e, nargs),
        forall|i: int, j: int|
            e.fx.blocks@[target].first - 1 <= i < e.fx.blocks@[target].last && #[trigger] takes(
                e.fx,
                i,
                x,
                j,
            ) ==> {
                let op = move_value(e.fx, (i as usize, j as usize));
                &&& e.ssa_local[i] matches Some(l) && l < m.locals.len()
                &&& e.ref_slot[i] is None
                &&& operand_value(e, op, m.locals) is Some
                &&& in_reach(op, nargs, e.fx.stmts@.len() as int)
            },
    ensures
        ({
            let lo = e.fx.blocks@[target].first - 1;
            let hi = e.fx.blocks@[target].last as int;
            effect(h, e, e.phi_moves(x, target), m) matches Some(k) && {
                &&& k.stack == m.stack
                &&& k.stored == m.stored
                &&& k.locals.len() == m.locals.len()
                &&& forall|i: int, j: int|
                    lo <= i < hi && #[trigger] takes(e.fx, i, x, j) ==> match e.fx.stmts@[i].stmt {
                        Node::Phi { values, .. } => Some(
                            k.locals[e.ssa_local[i]->Some_0 as int],
                        ) == operand_value(e, values@[j], m.locals),
                        _ => false,
                    }
                &&& forall|p: int|
                    0 <= p < m.locals.len() && (forall|i: int, j: int|
                        lo <= i < hi && #[trigger] takes(e.fx, i, x, j)
                            ==> e.ssa_local[i]->Some_0 != p) ==> #[trigger] k.locals[p]
                        == m.locals[p]
            }
        }),
{
    let lo = e.fx.blocks@[target].first - 1;
    let hi = e.fx.blocks@[target].last as int;
    let ms = moves(e.fx, x, lo, hi);
    lemma_moves(e.fx, x, lo, hi);
    if e.hazards(ms, 0, target).err is Some {
        lemma_fault_stays(e.hazards(ms, 0, target), ms, 0);
    }
    lemma_no_hazard(e, ms, 0, target);
    lemma_none(h, e, m);
    assert(movable(e, ms, m, nargs)) by {
        assert forall|n: int| 0 <= n < ms.len() implies {
            let i = (#[trigger] ms[n]).0 as int;
            &&& i < e.fx.stmts@.len()
            &&& e.fx.stmts@[i].stmt is Phi
            &&& e.ssa_local[i] matches Some(l) && l < m.locals.len()
            &&& e.ref_slot[i] is None
            &&& operand_value(e, move_value(e.fx, ms[n]), m.locals) is Some
            &&& in_reach(move_value(e.fx, ms[n]), nargs, e.fx.stmts@.len() as int)
        } by {
            assert(takes(e.fx, ms[n].0 as int, x, ms[n].1 as int));
            assert(ms[n] == (ms[n].0 as int as usize, ms[n].1 as int as usize));
        }
    }
    lemma_do_moves(h, e, e, ms, 0, m, m, nargs, lo, hi);
    let k = effect(h, e, e.phi_moves(x, target), m)->Some_0;
    assert forall|i: int, j: int| lo <= i < hi && #[trigger] takes(
        e.fx,
        i,
        x,
        j,
    ) implies match e.fx.stmts@[i].stmt {
        Node::Phi { values, .. } => Some(k.locals[e.ssa_local[i]->Some_0 as int])
            == operand_value(e, values@[j], m.locals),
        _ => false,
    } by {
        let c = choose|c: int| 0 <= c < ms.len() && #[trigger] ms[c] == (i as usize, j as usize);
        assert(ms[c].0 as int == i);
    }
    assert forall|p: int|
        0 <= p < m.locals.len() && (forall|i: int, j: int|
            lo <= i < hi && #[trigger] takes(e.fx, i, x, j) ==> e.ssa_local[i]->Some_0
                != p) implies #[trigger] k.locals[p] == m.locals[p] by {
        assert forall|c: int| 0 <= c < ms.len() implies e.ssa_local[(
        #[trigger] ms[c]).0 as int]->Some_0 != p by {
            assert(takes(e.fx, ms[c].0 as int, x, ms[c].1 as int));
        }
    }
}

/// A fault stays while choices are emitted.
proof fn lemma_fault_stays(e: EmitV, ms: Seq<(usize, usize)>, k: int)
    requires
        0 <= k <= ms.len(),
        e.err is Some,
    ensures
        e.do_moves(ms, k).err == e.err,
    decreases ms.len() - k,
{
    if k < ms.len() {
        lemma_fault_stays(
            e.operand(move_value(e.fx, ms[k])).set_ssa(ms[k].0 as int),
            ms,
            k + 1,
        );
    }
}

/// The arguments that the boxed function finds: the words from an address on, unboxed.
pub open spec fn unboxed(h: Host, p: int, a: int, n: int) -> Seq<Val> {
    Seq::new(
        if a < n {
            (n - a) as nat
        } else {
            0
        },
        |i: int| (h.call)(UNBOX, seq![Val::I32((h.word)(p + 4 * (a + i)))]),
    )
}

/// Two runs, one after the other.
proof fn lemma_obeyed_concat(h: Host, a: Seq<Insn>, b: Seq<Insn>, m: Mach)
    ensures
        obeyed(h, a + b, m) == match obeyed(h, a, m) {
            Some(k) => obeyed(h, b, k),
            None => None,
        },
    decreases b.len(),
{
    if b.len() == 0 {
        assert(a + b =~= a);
    } else {
        assert((a + b).drop_last() =~= a + b.drop_last());
        lemma_obeyed_concat(h, a, b.drop_last(), m);
    }
}

proof fn lemma_unbox(h: Host, a: int, n: int, m: Mach, p: i32)
    requires
        0 <= a <= n,
        4 * n <= u64::MAX,
        m.locals.len() > 0,
        m.locals[0] == Val::I32(p),
    ensures
        obeyed(h, unbox_code(a, n), m) == Some(
            Mach { stack: m.stack + unboxed(h, address(p), a, n), ..m },
        ),
    decreases n - a,
{
    if a < n {
        let g = Insn::Index(Indexed::LocalGet, 0);
        let ld = Insn::Mem(Access::I32Load, (a * 4) as u64, 2);
        let c = Insn::Index(Indexed::Call, UNBOX);
        let three = seq![g, ld, c];
        let w = Val::I32((h.word)(address(p) + 4 * a));
        let v = (h.call)(UNBOX, seq![w]);
        let m1 = m.push(Val::I32(p));
        let m2 = m.push(w);
        assert(m1.pop(1) =~= m);
        assert(m2.pop(1) =~= m);
        assert(m2.stack.skip(m2.stack.len() - 1) =~= seq![w]);
        assert(three.drop_last() =~= seq![g, ld]);
        assert(seq![g, ld].drop_last() =~= seq![g]);
        assert(seq![g].drop_last() =~= Seq::<Insn>::empty());
        assert(obeyed(h, Seq::<Insn>::empty(), m) == Some(m));
        assert(obeyed(h, seq![g], m) == Some(m1));
        assert(obeyed(h, seq![g, ld], m) == Some(m2));
        let m3 = m.push(v);
        assert(obeyed(h, three, m) == Some(m3));
        lemma_unbox(h, a + 1, n, m3, p);
        lemma_obeyed_concat(h, three, unbox_code(a + 1, n), m);
        assert(m3.stack + unboxed(h, address(p), a + 1, n) =~= m.stack + unboxed(
            h,
            address(p),
            a,
            n,
        ));
    } else {
        assert(m.stack + unboxed(h, address(p), a, n) =~= m.stack);
    }
}

/// The boxed function is the native one behind boxes: it unboxes the arguments, which
/// stand one after the other from the address it is given, hands them to the native
/// function in that order, and gives the boxed result.
pub proof fn law_the_boxed_function_calls_the_native_one(h: Host, n: int, m: Mach, p: i32)
    requires
        0 <= n,
        4 * n <= u64::MAX,
        h.nargs == n,
        m.locals.len() > 0,
        m.locals[0] == Val::I32(p),
    ensures
        ({
            let code = wrapper_code(n);
            let args = Seq::new(
                n as nat,
                |i: int| (h.call)(UNBOX, seq![Val::I32((h.word)(address(p) + 4 * i))]),
            );
            &&& code.last() == Insn::Plain(Plain::End)
            &&& obeyed(h, code.drop_last(), m) == Some(
                m.push((h.call)(BOX, seq![(h.call)(SPECSIG, args)])),
            )
        }),
{
    let code = wrapper_code(n);
    let args = Seq::new(
        n as nat,
        |i: int| (h.call)(UNBOX, seq![Val::I32((h.word)(address(p) + 4 * i))]),
    );
    let c1 = Insn::Index(Indexed::Call, SPECSIG);
    let c2 = Insn::Index(Indexed::Call, BOX);
    assert(code.drop_last() =~= unbox_code(0, n) + seq![c1, c2]);
    lemma_unbox(h, 0, n, m, p);
    assert(unboxed(h, address(p), 0, n) =~= args);
    let m1 = Mach { stack: m.stack + args, ..m };
    lemma_obeyed_concat(h, unbox_code(0, n), seq![c1, c2], m);
    assert(seq![c1, c2].drop_last() =~= seq![c1]);
    assert(seq![c1].drop_last() =~= Seq::<Insn>::empty());
    assert(obeyed(h, Seq::<Insn>::empty(), m1) == Some(m1));
    assert(m1.stack.skip(m1.stack.len() - n) =~= args);
    assert(m1.pop(n) =~= m);
    let r = (h.call)(SPECSIG, args);
    let m2 = m.push(r);
    assert(obeyed(h, seq![c1], m1) == Some(m2));
    assert(m2.stack.skip(m2.stack.len() - 1) =~= seq![r]);
    assert(m2.pop(1) =~= m);
}

} // verus!
