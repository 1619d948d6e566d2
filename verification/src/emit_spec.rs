//! What the compiler emits for a fixture.
//!
//! A method becomes two functions. The first has a native signature and keeps its
//! values in locals, one per statement that has a value. The second takes boxed
//! arguments from memory, calls the first and boxes the result. A function that
//! allocates claims one shadow-stack slot per reference and writes every reference
//! through to its slot.

use vstd::prelude::*;
use crate::bytes::{decimal, utf8};
use crate::fixture::{quoted, string_bytes, Fixture, Node, Operand};
use crate::graph::CfgV;
use crate::relooper::{irreducible, Event, PlanV, Term};
use crate::wasm::{
    Access, Arith, BodyV, Const, ImportKind, ImportV, Indexed, Insn, Plain, SectionV, Ty, TypeV,
    MAX_ENTRIES,
};
use crate::words::int_at;

verus! {

/// The imported function that boxes an integer.
pub const BOX: u32 = 0;

/// The imported function that unboxes an integer.
pub const UNBOX: u32 = 1;

/// The imported function that allocates a reference cell.
pub const NEWREF: u32 = 2;

/// The imported function that gives the address of the shadow-stack top.
pub const TOPADDR: u32 = 3;

/// The imported function that gives the base of the heap region.
pub const REGBASE: u32 = 4;

/// The function with the native signature.
pub const SPECSIG: u32 = 5;

/// The offset of an object's data from its reference.
pub const DATA_OFF: u64 = 0;

/// The largest number of arguments: more than a validator lets a function have.
pub const MAX_ARGS: usize = 0x40_0000;

/// The name of the reference type.
pub open spec fn ref_name() -> Seq<u8> {
    utf8("Base.RefValue{Int64}")
}

/// The type of the locals that hold values of the named type.
pub open spec fn value_type(name: Seq<u8>) -> Option<Ty> {
    if name == utf8("Int64") {
        Some(Ty::I64)
    } else if name == utf8("Bool") {
        Some(Ty::I32)
    } else if name == ref_name() {
        Some(Ty::I32)
    } else {
        None
    }
}

/// The instruction of an intrinsic.
pub open spec fn intrinsic_of(name: Seq<u8>) -> Option<Arith> {
    if name == utf8("add_int") {
        Some(Arith::Add)
    } else if name == utf8("sub_int") {
        Some(Arith::Sub)
    } else if name == utf8("mul_int") {
        Some(Arith::Mul)
    } else if name == utf8("and_int") {
        Some(Arith::And)
    } else if name == utf8("or_int") {
        Some(Arith::Or)
    } else if name == utf8("xor_int") {
        Some(Arith::Xor)
    } else if name == utf8("sle_int") {
        Some(Arith::LeS)
    } else if name == utf8("slt_int") {
        Some(Arith::LtS)
    } else if name == utf8("ule_int") {
        Some(Arith::LeU)
    } else if name == utf8("ult_int") {
        Some(Arith::LtU)
    } else if name == utf8("eq_int") {
        Some(Arith::Eq)
    } else if name == utf8("ne_int") {
        Some(Arith::Ne)
    } else {
        None
    }
}

/// Why a text is no 64-bit integer: the message of the standard library's parser.
pub uninterp spec fn integer_fault(s: Seq<char>) -> Seq<u8>;

/// The message for a bad integer literal.
pub open spec fn bad_literal(v: String) -> Seq<u8> {
    utf8("bad Int64 literal ") + quoted(v@) + utf8(": ") + integer_fault(v@)
}

/// The locals and shadow-stack slots of a function.
#[verifier::ext_equal]
pub struct LayoutV {
    /// The local of every statement with a value.
    pub ssa_local: Seq<Option<u32>>,
    /// The slot of every statement with a reference.
    pub ref_slot: Seq<Option<u32>>,
    /// The types of the locals.
    pub locals: Seq<Ty>,
    pub nrefs: nat,
    pub has_getfield: bool,
}

/// Whether a statement has a value.
pub open spec fn has_value(node: Node) -> bool {
    node is Phi || node is Call || node is New || node is GetField
}

/// The layout with one more statement, or why there is none.
pub open spec fn lay_out_one(fx: Fixture, l: LayoutV, i: int, nargs: int) -> Result<
    LayoutV,
    Seq<u8>,
> {
    let s = fx.stmts@[i];
    let seen = l.has_getfield || s.stmt is GetField;
    if has_value(s.stmt) {
        match value_type(string_bytes(s.ty)) {
            None => Err(
                utf8("statement %") + decimal((i + 1) as nat) + utf8(" has unsupported type ")
                    + quoted(s.ty@),
            ),
            Some(t) => {
                let is_ref = string_bytes(s.ty) == ref_name();
                Ok(
                    LayoutV {
                        ssa_local: l.ssa_local.push(Some((nargs + l.locals.len()) as u32)),
                        ref_slot: l.ref_slot.push(
                            if is_ref {
                                Some(l.nrefs as u32)
                            } else {
                                None
                            },
                        ),
                        locals: l.locals.push(t),
                        nrefs: if is_ref {
                            l.nrefs + 1
                        } else {
                            l.nrefs
                        },
                        has_getfield: seen,
                    },
                )
            },
        }
    } else {
        Ok(
            LayoutV {
                ssa_local: l.ssa_local.push(None),
                ref_slot: l.ref_slot.push(None),
                has_getfield: seen,
                ..l
            },
        )
    }
}

/// The layout from statement `i` on, after `l`.
pub open spec fn lay_out(fx: Fixture, l: LayoutV, i: int, nargs: int) -> Result<LayoutV, Seq<u8>>
    decreases fx.stmts@.len() - i,
{
    if i < 0 || i >= fx.stmts@.len() {
        Ok(l)
    } else {
        match lay_out_one(fx, l, i, nargs) {
            Err(m) => Err(m),
            Ok(l1) => lay_out(fx, l1, i + 1, nargs),
        }
    }
}

/// The layout without statements.
pub open spec fn no_layout() -> LayoutV {
    LayoutV {
        ssa_local: Seq::empty(),
        ref_slot: Seq::empty(),
        locals: Seq::empty(),
        nrefs: 0,
        has_getfield: false,
    }
}

/// The picture of an emitter.
#[verifier::ext_equal]
pub struct EmitV {
    pub fx: Fixture,
    pub ssa_local: Seq<Option<u32>>,
    pub ref_slot: Seq<Option<u32>>,
    /// The local with the address of the shadow-stack top.
    pub ta: u32,
    /// The local with the base of the claimed slots.
    pub gcbase: u32,
    /// The local with the base of the heap region.
    pub rb: u32,
    pub has_frame: bool,
    pub insns: Seq<Insn>,
    /// The first thing that went wrong.
    pub err: Option<Seq<u8>>,
}

impl EmitV {
    pub open spec fn fail(self, msg: Seq<u8>) -> EmitV {
        match self.err {
            Some(_) => self,
            None => EmitV { err: Some(msg), ..self },
        }
    }

    pub open spec fn put(self, i: Insn) -> EmitV {
        EmitV { insns: self.insns.push(i), ..self }
    }

    pub open spec fn get(self, l: u32) -> EmitV {
        self.put(Insn::Index(Indexed::LocalGet, l))
    }

    /// The value of an operand.
    pub open spec fn operand(self, op: Operand) -> EmitV {
        match op {
            Operand::Ssa { id } => match self.ssa_local[id - 1] {
                Some(l) => self.get(l),
                None => self.fail(
                    utf8("ssa %") + decimal(id as nat) + utf8(" has no value local"),
                ),
            },
            Operand::Arg { n } => if n < 2 {
                self.fail(utf8("argument _1 (#self#) is not representable"))
            } else {
                self.get((n - 2) as u32)
            },
            Operand::Const { t, v } => if string_bytes(t) == utf8("Int64") {
                match int_at(string_bytes(v), 0, string_bytes(v).len() as int) {
                    Some(x) => self.put(Insn::Const(Const::I64(x))),
                    None => self.fail(bad_literal(v)),
                }
            } else if string_bytes(t) == utf8("Bool") {
                self.put(
                    Insn::Const(
                        Const::I32(
                            if string_bytes(v) == utf8("true") {
                                1
                            } else {
                                0
                            },
                        ),
                    ),
                )
            } else {
                self.fail(utf8("unsupported constant type ") + quoted(t@))
            },
            Operand::Nothing => self.fail(utf8("`nothing` used as a value")),
        }
    }

    /// The values of the operands from `k` on.
    pub open spec fn operands(self, ops: Seq<Operand>, k: int) -> EmitV
        decreases ops.len() - k,
    {
        if k < 0 || k >= ops.len() {
            self
        } else {
            self.operand(ops[k]).operands(ops, k + 1)
        }
    }

    /// Stores a value as that of statement `i`, and a reference in its slot too.
    pub open spec fn set_ssa(self, i: int) -> EmitV {
        match self.ssa_local[i] {
            None => self.fail(
                utf8("statement %") + decimal((i + 1) as nat) + utf8(" has no local"),
            ),
            Some(l) => {
                let s = self.put(Insn::Index(Indexed::LocalSet, l));
                match self.ref_slot[i] {
                    None => s,
                    Some(k) => s.get(s.gcbase).get(l).put(
                        Insn::Mem(Access::I32Store, (k * 4) as u64, 2),
                    ),
                }
            },
        }
    }

    /// Statement `i`; choices and the ends of blocks are emitted elsewhere.
    pub open spec fn stmt(self, i: int) -> EmitV {
        match self.fx.stmts@[i].stmt {
            Node::Call { f, args } => {
                let s = self.operands(args@, 0);
                (match intrinsic_of(string_bytes(f)) {
                    Some(a) => s.put(Insn::Arith(a)),
                    None => s.fail(
                        utf8("intrinsic ") + quoted(f@) + utf8(" outside the whitelist"),
                    ),
                }).set_ssa(i)
            },
            Node::New { t, args } => if string_bytes(t) != ref_name() || args@.len() != 1 {
                self.fail(
                    utf8(":new of ") + quoted(t@) + utf8("/") + decimal(args@.len()) + utf8(
                        " args outside the vocabulary",
                    ),
                )
            } else {
                self.operand(args@[0]).put(Insn::Index(Indexed::Call, NEWREF)).set_ssa(i)
            },
            Node::GetField { obj, field } => if string_bytes(field) != utf8("x") {
                self.fail(
                    utf8("getfield :") + string_bytes(field) + utf8(" outside the vocabulary"),
                )
            } else {
                self.get(self.rb).operand(obj).put(Insn::Plain(Plain::I32Add)).put(
                    Insn::Mem(Access::I64Load, DATA_OFF, 3),
                ).set_ssa(i)
            },
            _ => self,
        }
    }

    /// The statements from `i` up to `end`.
    pub open spec fn stmts(self, i: int, end: int) -> EmitV
        decreases end - i,
    {
        if i >= end {
            self
        } else {
            self.stmt(i).stmts(i + 1, end)
        }
    }
}

/// The first of `edges` from `j` on that is `e`.
pub open spec fn edge_index(edges: Seq<u32>, e: int, j: int) -> Option<int>
    decreases edges.len() - j,
{
    if j < 0 || j >= edges.len() {
        None
    } else if edges[j] == e {
        Some(j)
    } else {
        edge_index(edges, e, j + 1)
    }
}

/// The choice of statement `i` for the edge from `x`: the number of its value.
pub open spec fn move_of(fx: Fixture, i: int, x: int) -> Option<int> {
    match fx.stmts@[i].stmt {
        Node::Phi { edges, values } => edge_index(edges@, x + 1, 0),
        _ => None,
    }
}

/// The choices of the statements from `i` up to `end` for the edge from `x`: each
/// statement and the number of its value.
pub open spec fn moves(fx: Fixture, x: int, i: int, end: int) -> Seq<(usize, usize)>
    decreases end - i,
{
    if i >= end {
        Seq::empty()
    } else {
        match move_of(fx, i, x) {
            Some(j) => seq![(i as usize, j as usize)] + moves(fx, x, i + 1, end),
            None => moves(fx, x, i + 1, end),
        }
    }
}

/// The value of a choice.
pub open spec fn move_value(fx: Fixture, m: (usize, usize)) -> Operand {
    match fx.stmts@[m.0 as int].stmt {
        Node::Phi { edges, values } => values@[m.1 as int],
        _ => Operand::Nothing,
    }
}

/// Whether an operand is a choice among the statements from `first` up to `last`.
pub open spec fn is_hazard(fx: Fixture, op: Operand, first: int, last: int) -> bool {
    match op {
        Operand::Ssa { id } => first <= id - 1 < last && fx.stmts@[id - 1].stmt is Phi,
        _ => false,
    }
}

impl EmitV {
    /// Fails where a choice from `k` on reads another choice of the block `target`.
    pub open spec fn hazards(self, ms: Seq<(usize, usize)>, k: int, target: int) -> EmitV
        decreases ms.len() - k,
    {
        if k < 0 || k >= ms.len() {
            self
        } else {
            let b = self.fx.blocks@[target];
            let s = if is_hazard(
                self.fx,
                move_value(self.fx, ms[k]),
                b.first - 1,
                b.last as int,
            ) {
                self.fail(utf8("φ-swap hazard in block ") + decimal((target + 1) as nat))
            } else {
                self
            };
            s.hazards(ms, k + 1, target)
        }
    }

    /// The choices from `k` on.
    pub open spec fn do_moves(self, ms: Seq<(usize, usize)>, k: int) -> EmitV
        decreases ms.len() - k,
    {
        if k < 0 || k >= ms.len() {
            self
        } else {
            self.operand(move_value(self.fx, ms[k])).set_ssa(ms[k].0 as int).do_moves(ms, k + 1)
        }
    }

    /// The choices for the edge from `x` to `target`.
    pub open spec fn phi_moves(self, x: int, target: int) -> EmitV {
        let b = self.fx.blocks@[target];
        let ms = moves(self.fx, x, b.first - 1, b.last as int);
        self.hazards(ms, 0, target).do_moves(ms, 0)
    }

    /// The condition of block `x` and its frame.
    pub open spec fn open_if(self, x: int) -> EmitV {
        match self.fx.stmts@[self.fx.blocks@[x].last - 1].stmt {
            Node::GotoIfNot { cond, dest } => self.operand(cond).put(Insn::Plain(Plain::If)),
            _ => self.fail(
                utf8("block ") + decimal((x + 1) as nat) + utf8(" has no GotoIfNot terminator"),
            ),
        }
    }

    /// The return of block `x`, after the claimed slots were given back.
    pub open spec fn ret(self, x: int) -> EmitV {
        match self.fx.stmts@[self.fx.blocks@[x].last - 1].stmt {
            Node::Return { val } => {
                let s = if self.has_frame {
                    self.get(self.ta).get(self.gcbase).put(Insn::Mem(Access::I32Store, 0, 2))
                } else {
                    self
                };
                s.operand(val).put(Insn::Plain(Plain::Return))
            },
            _ => self.fail(
                utf8("block ") + decimal((x + 1) as nat) + utf8(" has no Return terminator"),
            ),
        }
    }

    /// The effect of an event.
    pub open spec fn next(self, ev: Event) -> EmitV {
        match ev {
            Event::OpenLoop(_) => self.put(Insn::Plain(Plain::Loop)),
            Event::OpenBlock(_) => self.put(Insn::Plain(Plain::Block)),
            Event::Close => self.put(Insn::Plain(Plain::End)),
            Event::Stmts(x) => self.stmts(
                self.fx.blocks@[x as int].first - 1,
                self.fx.blocks@[x as int].last as int,
            ),
            Event::PhiMoves(x, t) => self.phi_moves(x as int, t as int),
            Event::Br(d) => self.put(Insn::Index(Indexed::Br, d)),
            Event::OpenIf(x) => self.open_if(x as int),
            Event::ElseArm => self.put(Insn::Plain(Plain::Else)),
            Event::Ret(x) => self.ret(x as int),
        }
    }

    /// The effect of some events.
    pub open spec fn after(self, evs: Seq<Event>) -> EmitV
        decreases evs.len(),
    {
        if evs.len() == 0 {
            self
        } else {
            self.after(evs.drop_last()).next(evs.last())
        }
    }

    /// Sets the claimed slots from `k` up to `n` to null.
    pub open spec fn zero_slots(self, k: int, n: int) -> EmitV
        decreases n - k,
    {
        if k >= n {
            self
        } else {
            self.get(self.gcbase).put(Insn::Const(Const::I32(0))).put(
                Insn::Mem(Access::I32Store, (k * 4) as u64, 2),
            ).zero_slots(k + 1, n)
        }
    }

    /// Claims `n` slots: loads the top, sets the slots to null, and raises the top.
    pub open spec fn claim(self, n: int) -> EmitV {
        self.put(Insn::Index(Indexed::Call, TOPADDR)).put(
            Insn::Index(Indexed::LocalSet, self.ta),
        ).get(self.ta).put(Insn::Mem(Access::I32Load, 0, 2)).put(
            Insn::Index(Indexed::LocalSet, self.gcbase),
        ).zero_slots(0, n).get(self.ta).get(self.gcbase).put(
            Insn::Const(Const::I32((n * 4) as i32)),
        ).put(Insn::Plain(Plain::I32Add)).put(Insn::Mem(Access::I32Store, 0, 2))
    }
}

/// The graph of a fixture, its blocks counted from zero.
pub open spec fn graph_of(fx: Fixture) -> CfgV {
    CfgV {
        succs: Seq::new(
            fx.nblocks(),
            |x: int| fx.blocks@[x].succs@.map_values(|s: u32| (s - 1) as usize),
        ),
        preds: Seq::new(
            fx.nblocks(),
            |x: int| real_preds(fx.blocks@[x].preds@, fx.blocks@[x].preds@.len() as int),
        ),
    }
}

/// The first `k` predecessors without the entry, counted from zero.
pub open spec fn real_preds(preds: Seq<i32>, k: int) -> Seq<usize>
    decreases k,
{
    if k <= 0 || k > preds.len() {
        Seq::empty()
    } else if preds[k - 1] > 0 {
        real_preds(preds, k - 1).push((preds[k - 1] - 1) as usize)
    } else {
        real_preds(preds, k - 1)
    }
}

/// How block `x` ends; where its last statement says nothing it goes on to its first
/// successor.
pub open spec fn term_of(fx: Fixture, x: int) -> Term {
    match fx.stmts@[fx.blocks@[x].last - 1].stmt {
        Node::Goto { dest } => Term::Goto((dest - 1) as usize),
        Node::GotoIfNot { cond, dest } => Term::If {
            then_: (x + 1) as usize,
            else_: (dest - 1) as usize,
        },
        Node::Return { val } => Term::Return,
        _ => Term::Goto((fx.blocks@[x].succs@[0] - 1) as usize),
    }
}

/// How all blocks end.
pub open spec fn terms_of(fx: Fixture) -> Seq<Term> {
    Seq::new(fx.nblocks(), |x: int| term_of(fx, x))
}

/// The plan for a graph.
pub open spec fn plan_of(g: CfgV) -> PlanV {
    choose|p: PlanV| p.is_for(g)
}

/// The function with the native signature.
#[verifier::ext_equal]
pub struct NativeV {
    pub locals: Seq<Ty>,
    pub insns: Seq<Insn>,
}

/// The first argument type from `i` on that is not supported.
pub open spec fn bad_argtype(fx: Fixture, i: int) -> Option<int>
    decreases fx.argtypes@.len() - i,
{
    if i < 0 || i >= fx.argtypes@.len() {
        None
    } else if string_bytes(fx.argtypes@[i]) != utf8("Int64") {
        Some(i)
    } else {
        bad_argtype(fx, i + 1)
    }
}

/// The message when something does not fit a module. What is that large is far beyond
/// what a validator accepts; it is refused before it is encoded.
pub open spec fn too_large() -> Seq<u8> {
    utf8("module too large")
}

/// The message when a fixture refers to something that is not there, or its blocks do
/// not agree about their edges.
pub open spec fn malformed() -> Seq<u8> {
    utf8("malformed fixture")
}

/// The number of an extra local after `count` others, if it is there.
pub open spec fn extra(there: bool, count: int) -> u32 {
    if there {
        count as u32
    } else {
        u32::MAX
    }
}

/// The emitter before the first block: its extra locals, and the code that claims
/// slots and loads the base of the region.
pub open spec fn prologue(fx: Fixture, l: LayoutV) -> EmitV {
    let n = fx.argtypes@.len() + l.locals.len();
    let frame = l.nrefs > 0;
    let after_frame = if frame {
        n + 2
    } else {
        n
    };
    let e = EmitV {
        fx,
        ssa_local: l.ssa_local,
        ref_slot: l.ref_slot,
        ta: extra(frame, n as int),
        gcbase: extra(frame, (n + 1) as int),
        rb: extra(l.has_getfield, after_frame as int),
        has_frame: frame,
        insns: Seq::empty(),
        err: None,
    };
    let e1 = if frame {
        e.claim(l.nrefs as int)
    } else {
        e
    };
    if l.has_getfield {
        e1.put(Insn::Index(Indexed::Call, REGBASE)).put(Insn::Index(Indexed::LocalSet, e.rb))
    } else {
        e1
    }
}

/// The types of all locals.
pub open spec fn all_locals(l: LayoutV) -> Seq<Ty> {
    let a = if l.nrefs > 0 {
        l.locals.push(Ty::I32).push(Ty::I32)
    } else {
        l.locals
    };
    if l.has_getfield {
        a.push(Ty::I32)
    } else {
        a
    }
}

/// The function with the native signature, or why there is none.
#[verifier::opaque]
pub open spec fn native_code(fx: Fixture) -> Result<NativeV, Seq<u8>> {
    let g = graph_of(fx);
    match bad_argtype(fx, 0) {
        Some(i) => Err(
            utf8("argtype ") + quoted(fx.argtypes@[i]@) + utf8(
                " outside the thin slice's vocabulary",
            ),
        ),
        None => if string_bytes(fx.rettype) != utf8("Int64") {
            Err(
                utf8("rettype ") + quoted(fx.rettype@) + utf8(
                    " outside the thin slice's vocabulary",
                ),
            )
        } else if fx.argtypes@.len() > MAX_ARGS {
            Err(too_large())
        } else if !fx.wf() {
            Err(malformed())
        } else {
            match lay_out(fx, no_layout(), 0, fx.argtypes@.len() as int) {
                Err(m) => Err(m),
                Ok(l) => if l.locals.len() + 3 > MAX_ENTRIES {
                    Err(too_large())
                } else if g.rpo().len() != g.n() {
                    Err(utf8("unreachable blocks in CFG"))
                } else {
                    match g.bad_edge(0, 0) {
                        Some(e) => Err(irreducible(e)),
                        None => {
                            let (evs, r) = plan_of(g).walk(terms_of(fx));
                            let e = prologue(fx, l).after(evs);
                            match r {
                                Err(m) => Err(m),
                                Ok(_) => match e.err {
                                    Some(m) => Err(m),
                                    None => Ok(
                                        NativeV { locals: all_locals(l), insns: e.insns },
                                    ),
                                },
                            }
                        },
                    }
                },
            }
        },
    }
}

/// The code that unboxes the arguments from `a` up to `n`.
pub open spec fn unbox_code(a: int, n: int) -> Seq<Insn>
    decreases n - a,
{
    if a >= n {
        Seq::empty()
    } else {
        seq![
            Insn::Index(Indexed::LocalGet, 0),
            Insn::Mem(Access::I32Load, (a * 4) as u64, 2),
            Insn::Index(Indexed::Call, UNBOX),
        ] + unbox_code(a + 1, n)
    }
}

/// The code of the boxed function.
pub open spec fn wrapper_code(nargs: int) -> Seq<Insn> {
    unbox_code(0, nargs) + seq![
        Insn::Index(Indexed::Call, SPECSIG),
        Insn::Index(Indexed::Call, BOX),
        Insn::Plain(Plain::End),
    ]
}

/// A function type.
pub open spec fn signature(params: Seq<Ty>, results: Seq<Ty>) -> TypeV {
    TypeV { params, results }
}

/// An import from the runtime.
pub open spec fn runtime_import(name: &str, kind: ImportKind) -> ImportV {
    ImportV { module: "env"@, name: name@, kind }
}

/// The types of a module: those of the two functions and of the imported ones.
pub open spec fn type_section(nargs: nat) -> Seq<TypeV> {
    seq![
        signature(Seq::new(nargs, |i: int| Ty::I64), seq![Ty::I64]),
        signature(seq![Ty::I32, Ty::I32], seq![Ty::I32]),
        signature(seq![Ty::I64], seq![Ty::I32]),
        signature(seq![Ty::I32], seq![Ty::I64]),
        signature(Seq::empty(), seq![Ty::I32]),
    ]
}

/// The imports of a module: the runtime's memory and functions.
pub open spec fn import_section() -> Seq<ImportV> {
    seq![
        runtime_import("memory", ImportKind::Memory(0)),
        runtime_import("rj_box_int", ImportKind::Function(2)),
        runtime_import("rj_unbox_int", ImportKind::Function(3)),
        runtime_import("rj_new_ref_int", ImportKind::Function(2)),
        runtime_import("rj_gc_shadow_top_addr", ImportKind::Function(4)),
        runtime_import("rj_region_base", ImportKind::Function(4)),
    ]
}

/// The sections of the module of a method.
pub open spec fn module_of(fx: Fixture, code: NativeV) -> Seq<SectionV> {
    seq![
        SectionV::Types(type_section(fx.argtypes@.len())),
        SectionV::Imports(import_section()),
        SectionV::Functions(seq![0u32, 1u32]),
        SectionV::Exports(
            seq![(fx.name@, SPECSIG), (fx.name@ + "_boxed"@, (SPECSIG + 1) as u32)],
        ),
        SectionV::Code(
            seq![
                BodyV {
                    locals: code.locals.map_values(|t: Ty| (1u32, t)),
                    insns: code.insns.push(Insn::Plain(Plain::Unreachable)).push(
                        Insn::Plain(Plain::End),
                    ),
                },
                BodyV {
                    locals: Seq::empty(),
                    insns: wrapper_code(fx.argtypes@.len() as int),
                },
            ],
        ),
    ]
}

/// The sections of the module of a fixture, or why there are none.
pub open spec fn compiled(fx: Fixture) -> Result<Seq<SectionV>, Seq<u8>> {
    match native_code(fx) {
        Err(m) => Err(m),
        Ok(code) => if code.insns.len() + 2 > MAX_ENTRIES || fx.name@.len() + 8 > MAX_ENTRIES {
            Err(too_large())
        } else {
            Ok(module_of(fx, code))
        },
    }
}

} // verus!
