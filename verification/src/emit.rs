//! The ahead-of-time compiler: a fixture to a WebAssembly module.
//!
//! The module [`crate::emit_spec`] says what is emitted.

use vstd::prelude::*;
use crate::bytes::{decimal, decimal_text, push_bytes, push_text, text, utf8};
use crate::emit_spec::{
    all_locals, bad_argtype, compiled, edge_index, graph_of, has_value, import_section,
    integer_fault, intrinsic_of, is_hazard, lay_out, lay_out_one, module_of, move_value, moves,
    native_code, no_layout, plan_of, prologue, real_preds, ref_name, term_of, terms_of,
    type_section, unbox_code, value_type, wrapper_code, EmitV, LayoutV, NativeV, BOX, DATA_OFF,
    MAX_ARGS, NEWREF, REGBASE, SPECSIG, TOPADDR, UNBOX,
};
use crate::fixture::{is_string, quote, quoted, string_bytes, Block, Fixture, Node, Operand};
use crate::graph::{lists, Cfg, CfgV};
use crate::relooper::{play, terms_fit, Emit, Event, PlanV, Relooper, Term};
use crate::wasm;
use crate::wasm::{
    fault, module_bytes, Access, Arith, Const, ImportKind, Indexed, Insn, Plain, Ty,
    MAX_ENTRIES,
};
use crate::words::int_at;

verus! {

/// Reads a 64-bit integer. `str::parse::<i64>` of the standard library takes an
/// optional sign and decimal digits; for any other text, and for a number that does
/// not fit, it gives an error whose message depends on the text alone.
#[verifier::external_body]
fn parse_integer(s: &str) -> (r: Result<i64, Vec<u8>>)
    ensures
        match r {
            Ok(x) => int_at(utf8(s), 0, utf8(s).len() as int) == Some(x),
            Err(m) => int_at(utf8(s), 0, utf8(s).len() as int) is None && m@ == integer_fault(s@),
        },
{
    s.parse::<i64>().map_err(|e| e.to_string().into_bytes())
}

/// The type of the locals that hold values of the named type.
fn valtype(name: &String) -> (r: Option<Ty>)
    ensures
        r == value_type(string_bytes(*name)),
{
    if is_string(name, "Int64") {
        Some(Ty::I64)
    } else if is_string(name, "Bool") {
        Some(Ty::I32)
    } else if is_ref(name) {
        Some(Ty::I32)
    } else {
        None
    }
}

/// Whether a type is the reference type.
fn is_ref(name: &String) -> (r: bool)
    ensures
        r == (string_bytes(*name) == ref_name()),
{
    is_string(name, "Base.RefValue{Int64}")
}

/// The instruction of an intrinsic.
fn intrinsic(name: &String) -> (r: Option<Arith>)
    ensures
        r == intrinsic_of(string_bytes(*name)),
{
    if is_string(name, "add_int") {
        Some(Arith::Add)
    } else if is_string(name, "sub_int") {
        Some(Arith::Sub)
    } else if is_string(name, "mul_int") {
        Some(Arith::Mul)
    } else if is_string(name, "and_int") {
        Some(Arith::And)
    } else if is_string(name, "or_int") {
        Some(Arith::Or)
    } else if is_string(name, "xor_int") {
        Some(Arith::Xor)
    } else if is_string(name, "sle_int") {
        Some(Arith::LeS)
    } else if is_string(name, "slt_int") {
        Some(Arith::LtS)
    } else if is_string(name, "ule_int") {
        Some(Arith::LeU)
    } else if is_string(name, "ult_int") {
        Some(Arith::LtU)
    } else if is_string(name, "eq_int") {
        Some(Arith::Eq)
    } else if is_string(name, "ne_int") {
        Some(Arith::Ne)
    } else {
        None
    }
}

/// A text, a number and another text.
fn with_number(before: &str, n: u64, after: &str) -> (r: Vec<u8>)
    ensures
        r@ == utf8(before) + decimal(n as nat) + utf8(after),
{
    let mut m: Vec<u8> = text(before);
    let d: Vec<u8> = decimal_text(n);
    push_bytes(&mut m, d.as_slice());
    push_text(&mut m, after);
    m
}

/// A text, a quoted string and another text.
fn with_quoted(before: &str, s: &String, after: &str) -> (r: Vec<u8>)
    ensures
        r@ == utf8(before) + quoted(s@) + utf8(after),
{
    let mut m: Vec<u8> = text(before);
    let q: Vec<u8> = quote(s.as_str());
    push_bytes(&mut m, q.as_slice());
    push_text(&mut m, after);
    m
}

/// An emitter of one function.
struct FnEmitter<'f> {
    fx: &'f Fixture,
    ssa_local: Vec<Option<u32>>,
    ref_slot: Vec<Option<u32>>,
    ta_local: u32,
    gcbase_local: u32,
    rb_local: u32,
    has_frame: bool,
    insns: Vec<Insn>,
    err: Option<Vec<u8>>,
}

/// The contents of a message.
spec fn message(e: Option<Vec<u8>>) -> Option<Seq<u8>> {
    match e {
        Some(m) => Some(m@),
        None => None,
    }
}

impl<'f> FnEmitter<'f> {
    spec fn seen(&self) -> EmitV {
        EmitV {
            fx: *self.fx,
            ssa_local: self.ssa_local@,
            ref_slot: self.ref_slot@,
            ta: self.ta_local,
            gcbase: self.gcbase_local,
            rb: self.rb_local,
            has_frame: self.has_frame,
            insns: self.insns@,
            err: message(self.err),
        }
    }

    /// Whether the fixture is in order and every statement has its entries.
    spec fn fit(&self) -> bool {
        &&& self.fx.wf()
        &&& self.ssa_local@.len() == self.fx.nstmts()
        &&& self.ref_slot@.len() == self.fx.nstmts()
    }

    fn fail(&mut self, msg: Vec<u8>)
        requires
            old(self).fit(),
        ensures
            final(self).seen() == old(self).seen().fail(msg@),
            final(self).fit(),
            final(self).fx == old(self).fx,
    {
        if self.err.is_none() {
            self.err = Some(msg);
        }
    }

    fn put(&mut self, i: Insn)
        requires
            old(self).fit(),
        ensures
            final(self).seen() == old(self).seen().put(i),
            final(self).fit(),
            final(self).fx == old(self).fx,
    {
        self.insns.push(i);
    }

    fn get(&mut self, l: u32)
        requires
            old(self).fit(),
        ensures
            final(self).seen() == old(self).seen().get(l),
            final(self).fit(),
            final(self).fx == old(self).fx,
    {
        self.put(Insn::Index(Indexed::LocalGet, l));
    }

    /// Emits the value of an operand.
    fn operand(&mut self, op: &Operand)
        requires
            old(self).fit(),
            op.fits(old(self).fx.nstmts()),
        ensures
            final(self).seen() == old(self).seen().operand(*op),
            final(self).fit(),
            final(self).fx == old(self).fx,
    {
        match op {
            Operand::Ssa { id } => match self.ssa_local[(*id - 1) as usize] {
                Some(l) => self.get(l),
                None => {
                    let m: Vec<u8> = with_number("ssa %", *id as u64, " has no value local");
                    self.fail(m);
                },
            },
            Operand::Arg { n } => {
                if *n < 2 {
                    self.fail(text("argument _1 (#self#) is not representable"));
                } else {
                    self.get(*n - 2);
                }
            },
            Operand::Const { t, v } => {
                if is_string(t, "Int64") {
                    match parse_integer(v.as_str()) {
                        Ok(x) => self.put(Insn::Const(Const::I64(x))),
                        Err(e) => {
                            let mut m: Vec<u8> = with_quoted("bad Int64 literal ", v, ": ");
                            push_bytes(&mut m, e.as_slice());
                            self.fail(m);
                        },
                    }
                } else if is_string(t, "Bool") {
                    let x: i32 = if is_string(v, "true") {
                        1
                    } else {
                        0
                    };
                    self.put(Insn::Const(Const::I32(x)));
                } else {
                    let mut m: Vec<u8> = text("unsupported constant type ");
                    let q: Vec<u8> = quote(t.as_str());
                    push_bytes(&mut m, q.as_slice());
                    self.fail(m);
                }
            },
            Operand::Nothing => self.fail(text("`nothing` used as a value")),
        }
    }

    /// Emits the values of some operands.
    fn operands(&mut self, ops: &Vec<Operand>)
        requires
            old(self).fit(),
            crate::fixture::all_fit(ops@, old(self).fx.nstmts()),
        ensures
            final(self).seen() == old(self).seen().operands(ops@, 0),
            final(self).fit(),
            final(self).fx == old(self).fx,
    {
        let mut k: usize = 0;
        while k < ops.len()
            invariant
                k <= ops.len(),
                self.fit(),
                self.fx == old(self).fx,
                crate::fixture::all_fit(ops@, self.fx.nstmts()),
                old(self).seen().operands(ops@, 0) == self.seen().operands(ops@, k as int),
            decreases ops.len() - k,
        {
            self.operand(&ops[k]);
            k = k + 1;
        }
    }

    /// Stores a value as that of statement `i`.
    fn set_ssa(&mut self, i: usize)
        requires
            old(self).fit(),
            i < old(self).fx.nstmts(),
        ensures
            final(self).seen() == old(self).seen().set_ssa(i as int),
            final(self).fit(),
            final(self).fx == old(self).fx,
    {
        match self.ssa_local[i] {
            None => {
                let m: Vec<u8> = with_number("statement %", i as u64 + 1, " has no local");
                self.fail(m);
            },
            Some(l) => {
                let slot: Option<u32> = self.ref_slot[i];
                self.put(Insn::Index(Indexed::LocalSet, l));
                match slot {
                    None => {},
                    Some(k) => {
                        let base: u32 = self.gcbase_local;
                        self.get(base);
                        self.get(l);
                        self.put(Insn::Mem(Access::I32Store, k as u64 * 4, 2));
                    },
                }
            },
        }
    }

    /// Emits statement `i`.
    #[verifier::rlimit(40)]
    fn stmt(&mut self, i: usize)
        requires
            old(self).fit(),
            i < old(self).fx.nstmts(),
        ensures
            final(self).seen() == old(self).seen().stmt(i as int),
            final(self).fit(),
            final(self).fx == old(self).fx,
    {
        let fx: &'f Fixture = self.fx;
        assert(fx.stmts@[i as int].stmt.fits(fx.nstmts()));
        match &fx.stmts[i].stmt {
            Node::Call { f, args } => {
                self.operands(args);
                match intrinsic(f) {
                    Some(a) => self.put(Insn::Arith(a)),
                    None => {
                        let m: Vec<u8> = with_quoted("intrinsic ", f, " outside the whitelist");
                        self.fail(m);
                    },
                }
                self.set_ssa(i);
            },
            Node::New { t, args } => {
                if !is_ref(t) || args.len() != 1 {
                    let mut m: Vec<u8> = with_quoted(":new of ", t, "/");
                    let d: Vec<u8> = decimal_text(args.len() as u64);
                    push_bytes(&mut m, d.as_slice());
                    push_text(&mut m, " args outside the vocabulary");
                    self.fail(m);
                } else {
                    self.operand(&args[0]);
                    self.put(Insn::Index(Indexed::Call, NEWREF));
                    self.set_ssa(i);
                }
            },
            Node::GetField { obj, field } => {
                if !is_string(field, "x") {
                    let mut m: Vec<u8> = text("getfield :");
                    push_text(&mut m, field.as_str());
                    push_text(&mut m, " outside the vocabulary");
                    self.fail(m);
                } else {
                    let base: u32 = self.rb_local;
                    self.get(base);
                    self.operand(obj);
                    self.put(Insn::Plain(Plain::I32Add));
                    self.put(Insn::Mem(Access::I64Load, DATA_OFF, 3));
                    self.set_ssa(i);
                }
            },
            _ => {},
        }
    }

    /// Fails where a choice reads another choice of the block `target`.
    fn check_hazards(&mut self, ms: &Vec<(usize, usize)>, target: usize)
        requires
            old(self).fit(),
            target < old(self).fx.nblocks(),
            moves_fit(*old(self).fx, ms@),
        ensures
            final(self).seen() == old(self).seen().hazards(ms@, 0, target as int),
            final(self).fit(),
            final(self).fx == old(self).fx,
    {
        let fx: &'f Fixture = self.fx;
        let b: &Block = &fx.blocks[target];
        assert(fx.block_fits(target as int));
        let mut k: usize = 0;
        while k < ms.len()
            invariant
                k <= ms.len(),
                self.fit(),
                self.fx == fx,
                old(self).fx == fx,
                fx.wf(),
                target < fx.nblocks(),
                b == fx.blocks@[target as int],
                1 <= b.first,
                moves_fit(*fx, ms@),
                old(self).seen().hazards(ms@, 0, target as int) == self.seen().hazards(
                    ms@,
                    k as int,
                    target as int,
                ),
            decreases ms.len() - k,
        {
            let m: (usize, usize) = ms[k];
            assert(move_fits(*fx, ms@[k as int]));
            assert(fx.stmts@[m.0 as int].stmt.fits(fx.nstmts()));
            if hazard(fx, m, b.first - 1, b.last) {
                let msg: Vec<u8> = with_number("φ-swap hazard in block ", target as u64 + 1, "");
                proof {
                    reveal_strlit("");
                    assert(utf8("") =~= Seq::<u8>::empty()) by {
                        assert(""@ =~= Seq::<char>::empty());
                    }
                    assert(msg@ =~= utf8("φ-swap hazard in block ") + decimal((target + 1) as nat));
                }
                self.fail(msg);
            }
            k = k + 1;
        }
    }

    /// Emits some choices.
    fn do_moves(&mut self, ms: &Vec<(usize, usize)>)
        requires
            old(self).fit(),
            moves_fit(*old(self).fx, ms@),
        ensures
            final(self).seen() == old(self).seen().do_moves(ms@, 0),
            final(self).fit(),
            final(self).fx == old(self).fx,
    {
        let fx: &'f Fixture = self.fx;
        let mut k: usize = 0;
        while k < ms.len()
            invariant
                k <= ms.len(),
                self.fit(),
                self.fx == fx,
                old(self).fx == fx,
                fx.wf(),
                moves_fit(*fx, ms@),
                old(self).seen().do_moves(ms@, 0) == self.seen().do_moves(ms@, k as int),
            decreases ms.len() - k,
        {
            let m: (usize, usize) = ms[k];
            assert(move_fits(*fx, ms@[k as int]));
            assert(fx.stmts@[m.0 as int].stmt.fits(fx.nstmts()));
            match &fx.stmts[m.0].stmt {
                Node::Phi { edges, values } => {
                    self.operand(&values[m.1]);
                },
                _ => {},
            }
            self.set_ssa(m.0);
            k = k + 1;
        }
    }
}

/// Whether a choice and its value exist.
spec fn move_fits(fx: Fixture, m: (usize, usize)) -> bool {
    &&& m.0 < fx.nstmts()
    &&& match fx.stmts@[m.0 as int].stmt {
        Node::Phi { edges, values } => m.1 < values@.len(),
        _ => false,
    }
}

/// Whether all choices and their values exist.
spec fn moves_fit(fx: Fixture, ms: Seq<(usize, usize)>) -> bool {
    forall|k: int| 0 <= k < ms.len() ==> move_fits(fx, #[trigger] ms[k])
}

/// Whether a choice reads another choice among the statements from `first` up to
/// `last`.
fn hazard(fx: &Fixture, m: (usize, usize), first: u32, last: u32) -> (r: bool)
    requires
        fx.wf(),
        move_fits(*fx, m),
    ensures
        r == is_hazard(*fx, move_value(*fx, m), first as int, last as int),
{
    assert(fx.stmts@[m.0 as int].stmt.fits(fx.nstmts()));
    match &fx.stmts[m.0].stmt {
        Node::Phi { edges, values } => match &values[m.1] {
            Operand::Ssa { id } => {
                assert(values@[m.1 as int].fits(fx.nstmts()));
                let s: u32 = *id - 1;
                if s >= first && s < last {
                    match &fx.stmts[s as usize].stmt {
                        Node::Phi { edges: _, values: _ } => true,
                        _ => false,
                    }
                } else {
                    false
                }
            },
            _ => false,
        },
        _ => false,
    }
}

/// The first of `edges` that is `e`.
fn find_edge(edges: &Vec<u32>, e: u64) -> (r: Option<usize>)
    ensures
        match r {
            Some(j) => edge_index(edges@, e as int, 0) == Some(j as int) && j < edges.len(),
            None => edge_index(edges@, e as int, 0) is None,
        },
{
    let mut j: usize = 0;
    while j < edges.len()
        invariant
            j <= edges.len(),
            edge_index(edges@, e as int, 0) == edge_index(edges@, e as int, j as int),
        decreases edges.len() - j,
    {
        if edges[j] as u64 == e {
            return Some(j);
        }
        j = j + 1;
    }
    None
}

/// The choices of the statements from `first` up to `end` for the edge from `x`.
fn list_moves(fx: &Fixture, x: usize, first: usize, end: usize) -> (r: Vec<(usize, usize)>)
    requires
        fx.wf(),
        x < fx.nblocks(),
        end <= fx.nstmts(),
    ensures
        r@ == moves(*fx, x as int, first as int, end as int),
        moves_fit(*fx, r@),
{
    let mut r: Vec<(usize, usize)> = Vec::new();
    let mut i: usize = first;
    let ghost whole = moves(*fx, x as int, first as int, end as int);
    assert(r@ + whole =~= whole);
    while i < end
        invariant
            first <= i,
            fx.wf(),
            x < fx.nblocks(),
            end <= fx.nstmts(),
            moves_fit(*fx, r@),
            whole == r@ + moves(*fx, x as int, i as int, end as int),
        decreases end - i,
    {
        assert(fx.stmts@[i as int].stmt.fits(fx.nstmts()));
        let ghost before = r@;
        let ghost rest = moves(*fx, x as int, i + 1, end as int);
        match &fx.stmts[i].stmt {
            Node::Phi { edges, values } => match find_edge(edges, x as u64 + 1) {
                Some(j) => {
                    r.push((i, j));
                    assert(before + (seq![(i, j)] + rest) =~= r@ + rest);
                },
                None => {},
            },
            _ => {},
        }
        i = i + 1;
    }
    assert(whole =~= r@);
    r
}

impl<'f> Emit for FnEmitter<'f> {
    type V = EmitV;

    closed spec fn state(&self) -> EmitV {
        self.seen()
    }

    closed spec fn next(v: EmitV, ev: Event) -> EmitV {
        v.next(ev)
    }

    closed spec fn ok(&self) -> bool {
        self.fit()
    }

    closed spec fn blocks(&self) -> nat {
        self.fx.nblocks()
    }

    fn open_loop(&mut self, x: usize) {
        self.put(Insn::Plain(Plain::Loop));
    }

    fn open_block(&mut self, follow: usize) {
        self.put(Insn::Plain(Plain::Block));
    }

    fn close(&mut self) {
        self.put(Insn::Plain(Plain::End));
    }

    fn stmts(&mut self, x: usize) {
        let fx: &'f Fixture = self.fx;
        assert(fx.block_fits(x as int));
        let end: usize = fx.blocks[x].last as usize;
        let first: usize = (fx.blocks[x].first - 1) as usize;
        let mut i: usize = first;
        while i < end
            invariant
                self.fit(),
                self.fx == fx,
                old(self).fx == fx,
                end <= fx.nstmts(),
                old(self).seen().stmts(first as int, end as int) == self.seen().stmts(
                    i as int,
                    end as int,
                ),
            decreases end - i,
        {
            self.stmt(i);
            i = i + 1;
        }
    }

    fn phi_moves(&mut self, x: usize, target: usize) {
        let fx: &'f Fixture = self.fx;
        assert(fx.block_fits(target as int));
        let b: &Block = &fx.blocks[target];
        let ms: Vec<(usize, usize)> = list_moves(
            fx,
            x,
            (b.first - 1) as usize,
            b.last as usize,
        );
        self.check_hazards(&ms, target);
        self.do_moves(&ms);
    }

    fn br(&mut self, depth: u32) {
        self.put(Insn::Index(Indexed::Br, depth));
    }

    fn open_if(&mut self, x: usize) {
        let fx: &'f Fixture = self.fx;
        assert(fx.block_fits(x as int));
        let i: usize = (fx.blocks[x].last - 1) as usize;
        assert(fx.stmts@[i as int].stmt.fits(fx.nstmts()));
        match &fx.stmts[i].stmt {
            Node::GotoIfNot { cond, dest } => {
                self.operand(cond);
                self.put(Insn::Plain(Plain::If));
            },
            _ => {
                let m: Vec<u8> = with_number(
                    "block ",
                    x as u64 + 1,
                    " has no GotoIfNot terminator",
                );
                self.fail(m);
            },
        }
    }

    fn else_arm(&mut self) {
        self.put(Insn::Plain(Plain::Else));
    }

    fn ret(&mut self, x: usize) {
        let fx: &'f Fixture = self.fx;
        assert(fx.block_fits(x as int));
        let i: usize = (fx.blocks[x].last - 1) as usize;
        assert(fx.stmts@[i as int].stmt.fits(fx.nstmts()));
        match &fx.stmts[i].stmt {
            Node::Return { val } => {
                if self.has_frame {
                    let (ta, base): (u32, u32) = (self.ta_local, self.gcbase_local);
                    self.get(ta);
                    self.get(base);
                    self.put(Insn::Mem(Access::I32Store, 0, 2));
                }
                self.operand(val);
                self.put(Insn::Plain(Plain::Return));
            },
            _ => {
                let m: Vec<u8> = with_number("block ", x as u64 + 1, " has no Return terminator");
                self.fail(m);
            },
        }
    }
}

/// A predecessor is listed as such.
proof fn lemma_real_preds(preds: Seq<i32>, k: int, u: int)
    requires
        0 <= k <= preds.len(),
        0 <= u < 0x7fff_ffff,
    ensures
        real_preds(preds, k).contains(u as usize) == preds.take(k).contains((u + 1) as i32),
        forall|i: int|
            0 <= i < real_preds(preds, k).len() ==> preds.contains(
                (#[trigger] real_preds(preds, k)[i] + 1) as i32,
            ) && real_preds(preds, k)[i] < 0x7fff_ffff,
    decreases k,
{
    if k > 0 {
        lemma_real_preds(preds, k - 1, u);
        let before = real_preds(preds, k - 1);
        let now = real_preds(preds, k);
        assert(preds.take(k) =~= preds.take(k - 1).push(preds[k - 1]));
        let had = preds.take(k - 1);
        let has = preds.take(k);
        if now.contains(u as usize) {
            let i = choose|i: int| 0 <= i < now.len() && now[i] == u as usize;
            if i < before.len() {
                assert(before[i] == u as usize);
                let j = choose|j: int| 0 <= j < had.len() && had[j] == (u + 1) as i32;
                assert(has[j] == (u + 1) as i32);
            } else {
                assert(has[k - 1] == (u + 1) as i32);
            }
        }
        if has.contains((u + 1) as i32) {
            let j = choose|j: int| 0 <= j < has.len() && has[j] == (u + 1) as i32;
            if j < k - 1 {
                assert(had[j] == (u + 1) as i32);
                let i = choose|i: int| 0 <= i < before.len() && before[i] == u as usize;
                assert(now[i] == u as usize);
            } else {
                assert(now[now.len() - 1] == u as usize);
            }
        }
        assert forall|i: int| 0 <= i < now.len() implies preds.contains(
            (#[trigger] now[i] + 1) as i32,
        ) && now[i] < 0x7fff_ffff by {
            if i < before.len() {
                assert(now[i] == before[i]);
            } else {
                assert(preds[k - 1] == (now[i] + 1) as i32);
            }
        }
    }
}

/// The graph of a well-formed fixture is well-formed.
proof fn lemma_graph(fx: Fixture)
    requires
        fx.wf(),
        forall|x: int|
            0 <= x < fx.nblocks() ==> (#[trigger] fx.blocks@[x]).succs@.len() <= usize::MAX,
    ensures
        graph_of(fx).wf(),
{
    let g = graph_of(fx);
    assert forall|u: int, i: int|
        #![trigger g.succs[u][i]]
        0 <= u < g.n() && 0 <= i < g.succs[u].len() implies g.succs[u][i] < g.n() by {
        assert(fx.block_fits(u));
        assert(1 <= fx.blocks@[u].succs@[i] <= fx.nblocks());
    }
    assert forall|u: int, i: int|
        #![trigger g.preds[u][i]]
        0 <= u < g.n() && 0 <= i < g.preds[u].len() implies g.preds[u][i] < g.n() by {
        assert(fx.block_fits(u));
        let preds = fx.blocks@[u].preds@;
        lemma_real_preds(preds, preds.len() as int, 0);
        let p = g.preds[u][i];
        assert(p == real_preds(preds, preds.len() as int)[i]);
        let j = choose|j: int| 0 <= j < preds.len() && preds[j] == (p + 1) as i32;
        assert(preds[j] <= fx.nblocks());
    }
    assert forall|u: int, v: int| 0 <= u < g.n() && 0 <= v < g.n() implies #[trigger] g.edge(u, v)
        == g.preds[v].contains(u as usize) by {
        let preds = fx.blocks@[v].preds@;
        let succs = fx.blocks@[u].succs@;
        lemma_real_preds(preds, preds.len() as int, u);
        assert(preds.take(preds.len() as int) =~= preds);
        assert(fx.follows(u, v) == fx.precedes(u, v));
        assert(fx.block_fits(u));
        if g.succs[u].contains(v as usize) {
            let i = choose|i: int| 0 <= i < g.succs[u].len() && g.succs[u][i] == v as usize;
            assert(1 <= succs[i] <= fx.nblocks());
            assert(succs[i] == (v + 1) as u32);
        }
        if succs.contains((v + 1) as u32) {
            let i = choose|i: int| 0 <= i < succs.len() && succs[i] == (v + 1) as u32;
            assert(g.succs[u][i] == v as usize);
        }
    }
}

/// The successors of a block, counted from zero.
fn succs_of(b: &Block) -> (r: Vec<usize>)
    requires
        forall|i: int| 0 <= i < b.succs@.len() ==> 1 <= #[trigger] b.succs@[i],
    ensures
        r@ == b.succs@.map_values(|s: u32| (s - 1) as usize),
{
    let mut r: Vec<usize> = Vec::new();
    let mut i: usize = 0;
    while i < b.succs.len()
        invariant
            i <= b.succs.len(),
            r.len() == i,
            forall|i: int| 0 <= i < b.succs@.len() ==> 1 <= #[trigger] b.succs@[i],
            forall|k: int| 0 <= k < i ==> r@[k] == (b.succs@[k] - 1) as usize,
        decreases b.succs.len() - i,
    {
        r.push((b.succs[i] - 1) as usize);
        i = i + 1;
    }
    assert(r@ =~= b.succs@.map_values(|s: u32| (s - 1) as usize));
    r
}

/// The predecessors of a block without the entry, counted from zero.
fn preds_of(b: &Block) -> (r: Vec<usize>)
    ensures
        r@ == real_preds(b.preds@, b.preds@.len() as int),
{
    let mut r: Vec<usize> = Vec::new();
    let mut i: usize = 0;
    assert(r@ =~= real_preds(b.preds@, 0));
    while i < b.preds.len()
        invariant
            i <= b.preds.len(),
            r@ == real_preds(b.preds@, i as int),
        decreases b.preds.len() - i,
    {
        if b.preds[i] > 0 {
            r.push((b.preds[i] - 1) as usize);
        }
        i = i + 1;
    }
    r
}

/// The graph of a fixture.
fn build_graph(fx: &Fixture) -> (r: Cfg)
    requires
        fx.wf(),
    ensures
        r@ == graph_of(*fx),
        r@.wf(),
{
    let mut succs: Vec<Vec<usize>> = Vec::new();
    let mut preds: Vec<Vec<usize>> = Vec::new();
    let n: usize = fx.blocks.len();
    let ghost g = graph_of(*fx);
    let mut x: usize = 0;
    while x < n
        invariant
            x <= n,
            n == fx.nblocks(),
            fx.wf(),
            g == graph_of(*fx),
            succs.len() == x,
            preds.len() == x,
            forall|k: int| 0 <= k < x ==> (#[trigger] succs@[k])@ == g.succs[k],
            forall|k: int| 0 <= k < x ==> (#[trigger] preds@[k])@ == g.preds[k],
        decreases n - x,
    {
        assert(fx.block_fits(x as int));
        succs.push(succs_of(&fx.blocks[x]));
        preds.push(preds_of(&fx.blocks[x]));
        x = x + 1;
    }
    let r: Cfg = Cfg { succs, preds };
    assert(r@ =~= g) by {
        assert(lists(succs@) =~= g.succs);
        assert(lists(preds@) =~= g.preds);
    }
    proof {
        assert forall|x: int| 0 <= x < fx.nblocks() implies (#[trigger] fx.blocks@[x]).succs@.len()
            <= usize::MAX by {
            assert(fx.blocks@[x].succs@.len() == fx.blocks@[x].succs.len());
        }
        lemma_graph(*fx);
    }
    r
}

/// How all blocks end.
fn list_terms(fx: &Fixture) -> (r: Vec<Term>)
    requires
        fx.wf(),
    ensures
        r@ == terms_of(*fx),
        terms_fit(r@, fx.nblocks()),
{
    let mut r: Vec<Term> = Vec::new();
    let n: usize = fx.blocks.len();
    let mut x: usize = 0;
    while x < n
        invariant
            x <= n,
            n == fx.nblocks(),
            fx.wf(),
            r.len() == x,
            forall|k: int|
                0 <= k < x ==> #[trigger] r@[k] == term_of(*fx, k) && match r@[k] {
                    Term::If { then_, else_ } => then_ < n && else_ < n,
                    Term::Goto(t) => t < n,
                    Term::Return => true,
                },
        decreases n - x,
    {
        assert(fx.block_fits(x as int));
        let b: &Block = &fx.blocks[x];
        let t: Term = match &fx.stmts[(b.last - 1) as usize].stmt {
            Node::Goto { dest } => Term::Goto((*dest - 1) as usize),
            Node::GotoIfNot { cond, dest } => Term::If {
                then_: x + 1,
                else_: (*dest - 1) as usize,
            },
            Node::Return { val } => Term::Return,
            _ => {
                assert(1 <= b.succs@[0] <= fx.nblocks());
                Term::Goto((b.succs[0] - 1) as usize)
            },
        };
        r.push(t);
        x = x + 1;
    }
    assert(r@ =~= terms_of(*fx));
    r
}

/// The locals and shadow-stack slots of a function.
struct Layout {
    ssa_local: Vec<Option<u32>>,
    ref_slot: Vec<Option<u32>>,
    locals: Vec<Ty>,
    nrefs: u32,
    has_getfield: bool,
}

impl View for Layout {
    type V = LayoutV;

    closed spec fn view(&self) -> LayoutV {
        LayoutV {
            ssa_local: self.ssa_local@,
            ref_slot: self.ref_slot@,
            locals: self.locals@,
            nrefs: self.nrefs as nat,
            has_getfield: self.has_getfield,
        }
    }
}

/// The layout, as told.
spec fn told_layout(r: Result<Layout, Vec<u8>>) -> Result<LayoutV, Seq<u8>> {
    match r {
        Ok(l) => Ok(l@),
        Err(m) => Err(m@),
    }
}

/// Whether a statement has a value.
fn produces(node: &Node) -> (r: bool)
    ensures
        r == has_value(*node),
{
    match node {
        Node::Phi { edges: _, values: _ } => true,
        Node::Call { f: _, args: _ } => true,
        Node::New { t: _, args: _ } => true,
        Node::GetField { obj: _, field: _ } => true,
        _ => false,
    }
}

/// Whether a statement reads a field.
fn reads_field(node: &Node) -> (r: bool)
    ensures
        r == (node is GetField),
{
    match node {
        Node::GetField { obj: _, field: _ } => true,
        _ => false,
    }
}

/// Gives a local to every statement with a value, and a slot to every reference.
#[verifier::rlimit(40)]
fn build_layout(fx: &Fixture, nargs: u32) -> (r: Result<Layout, Vec<u8>>)
    requires
        fx.wf(),
        nargs <= MAX_ARGS,
    ensures
        told_layout(r) == lay_out(*fx, no_layout(), 0, nargs as int),
        match r {
            Ok(l) => l@.ssa_local.len() == fx.nstmts() && l@.ref_slot.len() == fx.nstmts()
                && l@.locals.len() <= fx.nstmts() && l@.nrefs <= l@.locals.len(),
            Err(_) => true,
        },
{
    let mut l: Layout = Layout {
        ssa_local: Vec::new(),
        ref_slot: Vec::new(),
        locals: Vec::new(),
        nrefs: 0,
        has_getfield: false,
    };
    assert(l@ =~= no_layout());
    let n: usize = fx.stmts.len();
    let mut i: usize = 0;
    while i < n
        invariant
            i <= n,
            n == fx.nstmts(),
            fx.wf(),
            nargs <= MAX_ARGS,
            l@.ssa_local.len() == i,
            l@.ref_slot.len() == i,
            l@.locals.len() <= i,
            l@.nrefs <= l@.locals.len(),
            lay_out(*fx, no_layout(), 0, nargs as int) == lay_out(*fx, l@, i as int, nargs as int),
        decreases n - i,
    {
        let node: &Node = &fx.stmts[i].stmt;
        let ty: &String = &fx.stmts[i].ty;
        let ghost before = l@;
        if reads_field(node) {
            l.has_getfield = true;
        }
        if produces(node) {
            match valtype(ty) {
                None => {
                    let mut m: Vec<u8> = with_number(
                        "statement %",
                        i as u64 + 1,
                        " has unsupported type ",
                    );
                    let q: Vec<u8> = quote(ty.as_str());
                    push_bytes(&mut m, q.as_slice());
                    return Err(m);
                },
                Some(t) => {
                    l.ssa_local.push(Some(nargs + l.locals.len() as u32));
                    l.locals.push(t);
                    if is_ref(ty) {
                        l.ref_slot.push(Some(l.nrefs));
                        l.nrefs = l.nrefs + 1;
                    } else {
                        l.ref_slot.push(None);
                    }
                },
            }
        } else {
            l.ssa_local.push(None);
            l.ref_slot.push(None);
        }
        assert(lay_out_one(*fx, before, i as int, nargs as int) == Ok::<LayoutV, Seq<u8>>(l@));
        i = i + 1;
    }
    Ok(l)
}

/// There is one plan for a graph.
proof fn lemma_one_plan(g: CfgV, p: PlanV)
    requires
        g.wf(),
        p.is_for(g),
    ensures
        p == plan_of(g),
{
    let q = plan_of(g);
    assert(q.is_for(g));
    assert forall|b: int| 0 <= b < g.n() implies p.idom[b] == q.idom[b] by {
        if b > 0 {
            let (d, e) = (p.idom[b] as int, q.idom[b] as int);
            assert(crate::graph::is_idom(g, p.pos, d, b));
            assert(crate::graph::is_idom(g, q.pos, e, b));
            assert(p.pos[d] <= p.pos[e] && p.pos[e] <= p.pos[d]);
            assert(g.rpo()[p.pos[d] as int] == g.rpo()[p.pos[e] as int]);
        }
    }
    assert(p.idom =~= q.idom);
    assert forall|x: int| 0 <= x < g.n() implies p.children[x] == q.children[x] by {}
    assert(p.children =~= q.children);
    assert forall|v: int| 0 <= v < g.n() implies p.header[v] == q.header[v] by {}
    assert(p.header =~= q.header);
    assert forall|v: int| 0 <= v < g.n() implies p.merge[v] == q.merge[v] by {}
    assert(p.merge =~= q.merge);
    assert(p =~= q);
}

/// The emitter follows the events as stated.
proof fn lemma_after(v: EmitV, evs: Seq<Event>)
    ensures
        play::<FnEmitter>(v, evs) == v.after(evs),
    decreases evs.len(),
{
    if evs.len() > 0 {
        lemma_after(v, evs.drop_last());
    }
}

/// The emitter and the locals before the first block.
fn begin<'f>(fx: &'f Fixture, l: Layout, nargs: u32) -> (r: (FnEmitter<'f>, Vec<Ty>))
    requires
        fx.wf(),
        nargs == fx.argtypes@.len(),
        nargs <= MAX_ARGS,
        l@.ssa_local.len() == fx.nstmts(),
        l@.ref_slot.len() == fx.nstmts(),
        l@.locals.len() + 3 <= MAX_ENTRIES,
        l@.nrefs <= l@.locals.len(),
    ensures
        r.0.seen() == prologue(*fx, l@),
        r.0.fit(),
        r.0.fx == fx,
        r.1@ == all_locals(l@),
{
    let ghost lv = l@;
    let frame: bool = l.nrefs > 0;
    let nrefs: u32 = l.nrefs;
    let has_getfield: bool = l.has_getfield;
    let mut next: u32 = nargs + l.locals.len() as u32;
    let mut locals: Vec<Ty> = l.locals;
    let mut ta: u32 = u32::MAX;
    let mut gcbase: u32 = u32::MAX;
    let mut rb: u32 = u32::MAX;
    if frame {
        locals.push(Ty::I32);
        ta = next;
        locals.push(Ty::I32);
        gcbase = next + 1;
        next = next + 2;
    }
    if has_getfield {
        locals.push(Ty::I32);
        rb = next;
    }
    let mut e: FnEmitter<'f> = FnEmitter {
        fx,
        ssa_local: l.ssa_local,
        ref_slot: l.ref_slot,
        ta_local: ta,
        gcbase_local: gcbase,
        rb_local: rb,
        has_frame: frame,
        insns: Vec::new(),
        err: None,
    };
    assert(e.seen().insns =~= Seq::<Insn>::empty());
    if frame {
        claim(&mut e, nrefs);
    }
    if has_getfield {
        e.put(Insn::Index(Indexed::Call, REGBASE));
        e.put(Insn::Index(Indexed::LocalSet, rb));
    }
    (e, locals)
}

/// Emits the code that claims `n` slots.
fn claim<'f>(e: &mut FnEmitter<'f>, n: u32)
    requires
        old(e).fit(),
        n <= MAX_ENTRIES,
    ensures
        final(e).seen() == old(e).seen().claim(n as int),
        final(e).fit(),
        final(e).fx == old(e).fx,
{
    let (ta, base): (u32, u32) = (e.ta_local, e.gcbase_local);
    e.put(Insn::Index(Indexed::Call, TOPADDR));
    e.put(Insn::Index(Indexed::LocalSet, ta));
    e.get(ta);
    e.put(Insn::Mem(Access::I32Load, 0, 2));
    e.put(Insn::Index(Indexed::LocalSet, base));
    let ghost s = e.seen();
    let mut k: u32 = 0;
    while k < n
        invariant
            k <= n <= MAX_ENTRIES,
            e.fit(),
            e.fx == old(e).fx,
            e.seen().gcbase == base,
            e.seen().ta == ta,
            s.zero_slots(0, n as int) == e.seen().zero_slots(k as int, n as int),
        decreases n - k,
    {
        e.get(base);
        e.put(Insn::Const(Const::I32(0)));
        e.put(Insn::Mem(Access::I32Store, k as u64 * 4, 2));
        k = k + 1;
    }
    e.get(ta);
    e.get(base);
    e.put(Insn::Const(Const::I32((n * 4) as i32)));
    e.put(Insn::Plain(Plain::I32Add));
    e.put(Insn::Mem(Access::I32Store, 0, 2));
}

/// The code of a function, as told.
spec fn told_native(r: Result<(Vec<Ty>, Vec<Insn>), Vec<u8>>) -> Result<NativeV, Seq<u8>> {
    match r {
        Ok((locals, insns)) => Ok(NativeV { locals: locals@, insns: insns@ }),
        Err(m) => Err(m@),
    }
}

/// The first argument type that is not supported.
fn find_bad_argtype(fx: &Fixture) -> (r: Option<usize>)
    ensures
        match r {
            Some(i) => bad_argtype(*fx, 0) == Some(i as int) && i < fx.argtypes.len(),
            None => bad_argtype(*fx, 0) is None,
        },
{
    let mut i: usize = 0;
    while i < fx.argtypes.len()
        invariant
            i <= fx.argtypes.len(),
            bad_argtype(*fx, 0) == bad_argtype(*fx, i as int),
        decreases fx.argtypes.len() - i,
    {
        if !is_string(&fx.argtypes[i], "Int64") {
            return Some(i);
        }
        i = i + 1;
    }
    None
}

/// Compiles the function with the native signature.
#[verifier::rlimit(60)]
fn compile_native(fx: &Fixture) -> (r: Result<(Vec<Ty>, Vec<Insn>), Vec<u8>>)
    ensures
        told_native(r) == native_code(*fx),
        r is Ok ==> fx.wf() && fx.argtypes@.len() <= MAX_ARGS && r->Ok_0.0.len() <= MAX_ENTRIES,
{
    proof {
        reveal(native_code);
    }
    match find_bad_argtype(fx) {
        Some(i) => {
            return Err(
                with_quoted("argtype ", &fx.argtypes[i], " outside the thin slice's vocabulary"),
            );
        },
        None => {},
    }
    if !is_string(&fx.rettype, "Int64") {
        return Err(
            with_quoted("rettype ", &fx.rettype, " outside the thin slice's vocabulary"),
        );
    }
    if fx.argtypes.len() > MAX_ARGS {
        return Err(text("module too large"));
    }
    if !fx.is_well_formed() {
        return Err(text("malformed fixture"));
    }
    let nargs: u32 = fx.argtypes.len() as u32;
    let cfg: Cfg = build_graph(fx);
    let terms: Vec<Term> = list_terms(fx);
    let l: Layout = match build_layout(fx, nargs) {
        Ok(l) => l,
        Err(m) => {
            return Err(m);
        },
    };
    if l.locals.len() > MAX_ENTRIES - 3 {
        return Err(text("module too large"));
    }
    let (mut e, locals): (FnEmitter, Vec<Ty>) = begin(fx, l, nargs);
    let ghost v0 = e.seen();
    let plan: Relooper = match Relooper::new(&cfg) {
        Ok(p) => p,
        Err(m) => {
            return Err(m);
        },
    };
    proof {
        lemma_one_plan(cfg@, plan@);
    }
    let walked: Result<(), Vec<u8>> = plan.run(&mut e, &terms);
    proof {
        lemma_after(v0, plan@.walk(terms@).0);
    }
    match walked {
        Err(m) => Err(m),
        Ok(_) => match e.err {
            Some(m) => Err(m),
            None => Ok((locals, e.insns)),
        },
    }
}

/// A list of one type.
fn just(t: Ty) -> (r: Vec<Ty>)
    ensures
        r@ == seq![t],
{
    let mut r: Vec<Ty> = Vec::new();
    r.push(t);
    assert(r@ =~= seq![t]);
    r
}

/// The type section of a module.
fn build_types(nargs: usize) -> (r: wasm_encoder::TypeSection)
    requires
        nargs <= MAX_ARGS,
    ensures
        wasm::type_entries(r) == type_section(nargs as nat),
{
    let mut params: Vec<Ty> = Vec::new();
    let mut i: usize = 0;
    while i < nargs
        invariant
            i <= nargs,
            params.len() == i,
            forall|k: int| 0 <= k < i ==> params@[k] == Ty::I64,
        decreases nargs - i,
    {
        params.push(Ty::I64);
        i = i + 1;
    }
    assert(params@ =~= Seq::new(nargs as nat, |i: int| Ty::I64));
    let none: Vec<Ty> = Vec::new();
    assert(none@ =~= Seq::<Ty>::empty());
    let mut two: Vec<Ty> = just(Ty::I32);
    two.push(Ty::I32);
    assert(two@ =~= seq![Ty::I32, Ty::I32]);
    let mut s: wasm_encoder::TypeSection = wasm::new_types();
    wasm::add_type(&mut s, &params, &just(Ty::I64));
    wasm::add_type(&mut s, &two, &just(Ty::I32));
    wasm::add_type(&mut s, &just(Ty::I64), &just(Ty::I32));
    wasm::add_type(&mut s, &just(Ty::I32), &just(Ty::I64));
    wasm::add_type(&mut s, &none, &just(Ty::I32));
    assert(wasm::type_entries(s) =~= type_section(nargs as nat));
    s
}

/// The names of the imports are short.
proof fn lemma_short_names()
    ensures
        "env"@.len() <= 16,
        "memory"@.len() <= 64,
        "rj_box_int"@.len() <= 64,
        "rj_unbox_int"@.len() <= 64,
        "rj_new_ref_int"@.len() <= 64,
        "rj_gc_shadow_top_addr"@.len() <= 64,
        "rj_region_base"@.len() <= 64,
{
    reveal_strlit("env");
    reveal_strlit("memory");
    reveal_strlit("rj_box_int");
    reveal_strlit("rj_unbox_int");
    reveal_strlit("rj_new_ref_int");
    reveal_strlit("rj_gc_shadow_top_addr");
    reveal_strlit("rj_region_base");
}

/// The import section of a module.
fn build_imports() -> (r: wasm_encoder::ImportSection)
    ensures
        wasm::import_entries(r) == import_section(),
{
    proof {
        lemma_short_names();
    }
    let mut s: wasm_encoder::ImportSection = wasm::new_imports();
    wasm::add_import(&mut s, "env", "memory", ImportKind::Memory(0));
    wasm::add_import(&mut s, "env", "rj_box_int", ImportKind::Function(2));
    wasm::add_import(&mut s, "env", "rj_unbox_int", ImportKind::Function(3));
    wasm::add_import(&mut s, "env", "rj_new_ref_int", ImportKind::Function(2));
    wasm::add_import(&mut s, "env", "rj_gc_shadow_top_addr", ImportKind::Function(4));
    wasm::add_import(&mut s, "env", "rj_region_base", ImportKind::Function(4));
    assert(wasm::import_entries(s) =~= import_section());
    s
}

/// The export section of a module.
fn build_exports(name: &String) -> (r: wasm_encoder::ExportSection)
    requires
        name@.len() + 8 <= MAX_ENTRIES,
    ensures
        wasm::export_entries(r) == seq![
            (name@, SPECSIG),
            (name@ + "_boxed"@, (SPECSIG + 1) as u32),
        ],
{
    let mut boxed: String = name.clone();
    boxed.append("_boxed");
    proof {
        reveal_strlit("_boxed");
    }
    let mut s: wasm_encoder::ExportSection = wasm::new_exports();
    wasm::add_export(&mut s, name.as_str(), SPECSIG);
    wasm::add_export(&mut s, boxed.as_str(), SPECSIG + 1);
    assert(wasm::export_entries(s) =~= seq![
        (name@, SPECSIG),
        (name@ + "_boxed"@, (SPECSIG + 1) as u32),
    ]);
    s
}

/// The body of the function with the native signature.
fn build_native(locals: &Vec<Ty>, insns: &Vec<Insn>) -> (r: wasm_encoder::Function)
    requires
        locals.len() <= MAX_ENTRIES,
    ensures
        wasm::function_locals(r) == locals@.map_values(|t: Ty| (1u32, t)),
        wasm::function_insns(r) == insns@.push(Insn::Plain(Plain::Unreachable)).push(
            Insn::Plain(Plain::End),
        ),
{
    let mut runs: Vec<(u32, Ty)> = Vec::new();
    let mut k: usize = 0;
    while k < locals.len()
        invariant
            k <= locals.len(),
            runs.len() == k,
            forall|j: int| 0 <= j < k ==> runs@[j] == (1u32, locals@[j]),
        decreases locals.len() - k,
    {
        runs.push((1, locals[k]));
        k = k + 1;
    }
    assert(runs@ =~= locals@.map_values(|t: Ty| (1u32, t)));
    let mut f: wasm_encoder::Function = wasm::new_function(&runs);
    let mut i: usize = 0;
    while i < insns.len()
        invariant
            i <= insns.len(),
            wasm::function_locals(f) == runs@,
            wasm::function_insns(f) =~= insns@.take(i as int),
        decreases insns.len() - i,
    {
        wasm::put(&mut f, insns[i]);
        i = i + 1;
    }
    assert(insns@.take(insns.len() as int) =~= insns@);
    wasm::put(&mut f, Insn::Plain(Plain::Unreachable));
    wasm::put(&mut f, Insn::Plain(Plain::End));
    f
}

/// The number of instructions that unbox arguments.
proof fn lemma_unbox_len(a: int, n: int)
    requires
        0 <= a <= n,
    ensures
        unbox_code(a, n).len() == 3 * (n - a),
    decreases n - a,
{
    if a < n {
        lemma_unbox_len(a + 1, n);
    }
}

/// The body of the boxed function.
fn build_wrapper(nargs: usize) -> (r: wasm_encoder::Function)
    requires
        nargs <= MAX_ARGS,
    ensures
        wasm::function_locals(r) == Seq::<(u32, Ty)>::empty(),
        wasm::function_insns(r) == wrapper_code(nargs as int),
        wasm::function_insns(r).len() <= MAX_ENTRIES,
{
    let none: Vec<(u32, Ty)> = Vec::new();
    assert(none@ =~= Seq::<(u32, Ty)>::empty());
    let mut f: wasm_encoder::Function = wasm::new_function(&none);
    let mut a: usize = 0;
    assert(wasm::function_insns(f) + unbox_code(0, nargs as int) =~= unbox_code(0, nargs as int));
    while a < nargs
        invariant
            a <= nargs <= MAX_ARGS,
            wasm::function_locals(f) == Seq::<(u32, Ty)>::empty(),
            wasm::function_insns(f) + unbox_code(a as int, nargs as int) == unbox_code(
                0,
                nargs as int,
            ),
        decreases nargs - a,
    {
        let ghost before = wasm::function_insns(f);
        let ghost rest = unbox_code(a + 1, nargs as int);
        wasm::put(&mut f, Insn::Index(Indexed::LocalGet, 0));
        wasm::put(&mut f, Insn::Mem(Access::I32Load, a as u64 * 4, 2));
        wasm::put(&mut f, Insn::Index(Indexed::Call, UNBOX));
        assert(wasm::function_insns(f) + rest =~= before + unbox_code(a as int, nargs as int));
        a = a + 1;
    }
    assert(wasm::function_insns(f) =~= unbox_code(0, nargs as int));
    wasm::put(&mut f, Insn::Index(Indexed::Call, SPECSIG));
    wasm::put(&mut f, Insn::Index(Indexed::Call, BOX));
    wasm::put(&mut f, Insn::Plain(Plain::End));
    assert(wasm::function_insns(f) =~= wrapper_code(nargs as int));
    proof {
        lemma_unbox_len(0, nargs as int);
    }
    f
}

/// The binary module of a method.
fn assemble(fx: &Fixture, locals: &Vec<Ty>, insns: &Vec<Insn>) -> (r: Vec<u8>)
    requires
        fx.argtypes@.len() <= MAX_ARGS,
        locals.len() <= MAX_ENTRIES,
        insns.len() + 2 <= MAX_ENTRIES,
        fx.name@.len() + 8 <= MAX_ENTRIES,
    ensures
        r@ == module_bytes(module_of(*fx, (NativeV { locals: locals@, insns: insns@ }))),
{
    let nargs: usize = fx.argtypes.len();
    let ghost want = module_of(*fx, NativeV { locals: locals@, insns: insns@ });
    let types: wasm::Section = wasm::Section::Types(build_types(nargs));
    let imports: wasm::Section = wasm::Section::Imports(build_imports());
    let mut fs: wasm_encoder::FunctionSection = wasm::new_functions();
    wasm::add_function(&mut fs, 0);
    wasm::add_function(&mut fs, 1);
    assert(wasm::function_entries(fs) =~= seq![0u32, 1u32]);
    let functions: wasm::Section = wasm::Section::Functions(fs);
    let exports: wasm::Section = wasm::Section::Exports(build_exports(&fx.name));
    let native: wasm_encoder::Function = build_native(locals, insns);
    let wrapper: wasm_encoder::Function = build_wrapper(nargs);
    let mut cs: wasm_encoder::CodeSection = wasm::new_code();
    wasm::add_body(&mut cs, &native);
    wasm::add_body(&mut cs, &wrapper);
    let code: wasm::Section = wasm::Section::Code(cs);
    proof {
        lemma_short_names();
        reveal_strlit("_boxed");
        assert(types@ == want[0]);
        assert(imports@ == want[1]);
        assert(functions@ == want[2]);
        assert(exports@ == want[3]);
        assert(code@ == want[4]) by {
            assert(wasm::code_entries(cs) =~= want[4]->Code_0);
        }
    }
    let mut m: wasm_encoder::Module = wasm::new_module();
    wasm::add_section(&mut m, &types);
    wasm::add_section(&mut m, &imports);
    wasm::add_section(&mut m, &functions);
    wasm::add_section(&mut m, &exports);
    wasm::add_section(&mut m, &code);
    assert(wasm::module_sections(m) =~= want);
    wasm::finish(m)
}

/// The outcome for a binary module and what is wrong with it.
pub open spec fn judged(bytes: Seq<u8>, verdict: Option<Seq<u8>>) -> Result<Seq<u8>, Seq<u8>> {
    match verdict {
        Some(e) => Err(utf8("emitted module invalid: ") + e),
        None => Ok(bytes),
    }
}

/// The bytes, as told.
pub open spec fn told_bytes(r: Result<Vec<u8>, Vec<u8>>) -> Result<Seq<u8>, Seq<u8>> {
    match r {
        Ok(b) => Ok(b@),
        Err(m) => Err(m@),
    }
}

/// Gives a binary module out unless something is wrong with it.
pub fn accept_module(bytes: Vec<u8>, verdict: Option<Vec<u8>>) -> (r: Result<Vec<u8>, Vec<u8>>)
    ensures
        told_bytes(r) == judged(
            bytes@,
            match verdict {
                Some(e) => Some(e@),
                None => None,
            },
        ),
{
    match verdict {
        Some(e) => {
            let mut m: Vec<u8> = text("emitted module invalid: ");
            push_bytes(&mut m, e.as_slice());
            Err(m)
        },
        None => Ok(bytes),
    }
}

/// Compiles a fixture to a binary module, which is validated.
pub fn emit_module(fx: &Fixture) -> (r: Result<Vec<u8>, Vec<u8>>)
    ensures
        told_bytes(r) == match compiled(*fx) {
            Err(m) => Err(m),
            Ok(sections) => judged(module_bytes(sections), fault(module_bytes(sections))),
        },
{
    match compile_native(fx) {
        Err(m) => Err(m),
        Ok((locals, insns)) => {
            let name_len: usize = fx.name.as_str().unicode_len();
            if insns.len() > MAX_ENTRIES - 2 || name_len > MAX_ENTRIES - 8 {
                return Err(text("module too large"));
            }
            let bytes: Vec<u8> = assemble(fx, &locals, &insns);
            let verdict: Option<Vec<u8>> = wasm::validate(&bytes);
            accept_module(bytes, verdict)
        },
    }
}

} // verus!
