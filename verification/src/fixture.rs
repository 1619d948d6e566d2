//! The typed intermediate representation of one compiled method: basic blocks,
//! statements and their inferred types.
//!
//! Blocks and statements are numbered from one, as in the serialised form; the
//! predecessor zero is the entry.

use vstd::prelude::*;
use crate::bytes::{push_bytes, push_text, same_bytes, text, told, utf8};

verus! {

/// A compiled method.
pub struct Fixture {
    pub format: String,
    pub name: String,
    pub argtypes: Vec<String>,
    pub rettype: String,
    pub blocks: Vec<Block>,
    pub stmts: Vec<Stmt>,
}

/// A basic block: its statements from `first` up to and with `last`, and the blocks
/// before and after it.
pub struct Block {
    pub first: u32,
    pub last: u32,
    pub preds: Vec<i32>,
    pub succs: Vec<u32>,
}

/// A statement with the name of its inferred type.
pub struct Stmt {
    pub ty: String,
    pub stmt: Node,
}

pub enum Node {
    Nothing,
    /// A choice of value by the block that control came from.
    Phi { edges: Vec<u32>, values: Vec<Operand> },
    /// A call of an intrinsic.
    Call { f: String, args: Vec<Operand> },
    /// An allocation.
    New { t: String, args: Vec<Operand> },
    GetField { obj: Operand, field: String },
    /// A jump to `dest` where the condition does not hold.
    GotoIfNot { cond: Operand, dest: u32 },
    Goto { dest: u32 },
    Return { val: Operand },
}

pub enum Operand {
    /// The value of a statement.
    Ssa { id: u32 },
    /// An argument; the first one is the function itself.
    Arg { n: u32 },
    Const { t: String, v: String },
    Nothing,
}

/// The format that is understood.
pub open spec fn format_name() -> Seq<u8> {
    utf8("ruju-aotc-fixture-1")
}

/// The quoted text of a string: what its `Debug` form of the standard library is.
pub uninterp spec fn quoted(s: Seq<char>) -> Seq<u8>;

/// The `Debug` form of a string, by the standard library's formatting; it depends on
/// the string alone.
#[verifier::external_body]
pub(crate) fn quote(s: &str) -> (r: Vec<u8>)
    ensures
        r@ == quoted(s@),
{
    format!("{:?}", s).into_bytes()
}

/// The UTF-8 bytes of a string.
pub open spec fn string_bytes(s: String) -> Seq<u8> {
    vstd::utf8::encode_utf8(s@)
}

/// Whether a string is `w`.
pub(crate) fn is_string(s: &String, w: &str) -> (r: bool)
    ensures
        r == (string_bytes(*s) == utf8(w)),
{
    let t: Vec<u8> = text(s.as_str());
    same_bytes(&t, w.as_bytes())
}

impl Operand {
    /// Whether the operand names a statement of a method with `n` of them.
    pub open spec fn fits(self, n: nat) -> bool {
        match self {
            Operand::Ssa { id } => 1 <= id <= n,
            _ => true,
        }
    }
}

/// Whether all operands name statements.
pub open spec fn all_fit(ops: Seq<Operand>, n: nat) -> bool {
    forall|i: int| 0 <= i < ops.len() ==> (#[trigger] ops[i]).fits(n)
}

impl Node {
    /// Whether the statement refers to existing statements only and its choices have
    /// values.
    pub open spec fn fits(self, n: nat) -> bool {
        match self {
            Node::Nothing => true,
            Node::Phi { edges, values } => edges@.len() <= values@.len() && all_fit(values@, n),
            Node::Call { f, args } => all_fit(args@, n),
            Node::New { t, args } => all_fit(args@, n),
            Node::GetField { obj, field } => obj.fits(n),
            Node::GotoIfNot { cond, dest } => cond.fits(n),
            Node::Goto { dest } => true,
            Node::Return { val } => val.fits(n),
        }
    }
}

impl Fixture {
    /// The number of blocks.
    pub open spec fn nblocks(self) -> nat {
        self.blocks@.len()
    }

    /// The number of statements.
    pub open spec fn nstmts(self) -> nat {
        self.stmts@.len()
    }

    /// Whether a block's statements and neighbours exist, and it ends with one of its
    /// statements.
    pub open spec fn block_fits(self, x: int) -> bool {
        let b = self.blocks@[x];
        &&& 1 <= b.first
        &&& 1 <= b.last <= self.nstmts()
        &&& forall|i: int|
            0 <= i < b.succs@.len() ==> 1 <= #[trigger] b.succs@[i] <= self.nblocks()
        &&& forall|i: int| 0 <= i < b.preds@.len() ==> #[trigger] b.preds@[i] <= self.nblocks()
        &&& match self.stmts@[b.last - 1].stmt {
            Node::Goto { dest } => 1 <= dest <= self.nblocks(),
            Node::GotoIfNot { cond, dest } => 1 <= dest <= self.nblocks() && x + 1 < self.nblocks(),
            Node::Return { val } => true,
            _ => b.succs@.len() > 0,
        }
    }

    /// Whether `y` follows `x`, both counted from zero.
    pub open spec fn follows(self, x: int, y: int) -> bool {
        self.blocks@[x].succs@.contains((y + 1) as u32)
    }

    /// Whether `x` comes before `y`, both counted from zero.
    pub open spec fn precedes(self, x: int, y: int) -> bool {
        self.blocks@[y].preds@.contains((x + 1) as i32)
    }

    /// Whether everything a fixture refers to exists, and its blocks agree about the
    /// edges between them.
    pub open spec fn wf(self) -> bool {
        &&& 0 < self.nblocks() <= 0x7fff_ffff
        &&& self.nstmts() <= 0x7fff_ffff
        &&& forall|x: int| 0 <= x < self.nblocks() ==> #[trigger] self.block_fits(x)
        &&& forall|i: int|
            0 <= i < self.nstmts() ==> (#[trigger] self.stmts@[i]).stmt.fits(self.nstmts())
        &&& forall|x: int, y: int|
            0 <= x < self.nblocks() && 0 <= y < self.nblocks() ==> #[trigger] self.follows(x, y)
                == self.precedes(x, y)
    }
}

/// Whether all operands name statements.
fn ops_fit(ops: &Vec<Operand>, n: usize) -> (r: bool)
    ensures
        r == all_fit(ops@, n as nat),
{
    let mut i: usize = 0;
    while i < ops.len()
        invariant
            i <= ops.len(),
            forall|k: int| 0 <= k < i ==> (#[trigger] ops@[k]).fits(n as nat),
        decreases ops.len() - i,
    {
        if !op_fits(&ops[i], n) {
            return false;
        }
        i = i + 1;
    }
    true
}

/// Whether an operand names a statement.
fn op_fits(op: &Operand, n: usize) -> (r: bool)
    ensures
        r == op.fits(n as nat),
{
    match op {
        Operand::Ssa { id } => 1 <= *id && *id as usize <= n,
        _ => true,
    }
}

/// Whether a statement refers to existing statements only.
fn node_fits(node: &Node, n: usize) -> (r: bool)
    ensures
        r == node.fits(n as nat),
{
    match node {
        Node::Nothing => true,
        Node::Phi { edges, values } => edges.len() <= values.len() && ops_fit(values, n),
        Node::Call { f, args } => ops_fit(args, n),
        Node::New { t, args } => ops_fit(args, n),
        Node::GetField { obj, field } => op_fits(obj, n),
        Node::GotoIfNot { cond, dest } => op_fits(cond, n),
        Node::Goto { dest } => true,
        Node::Return { val } => op_fits(val, n),
    }
}

/// Whether `v` holds `x`.
fn holds(v: &Vec<u32>, x: u32) -> (r: bool)
    ensures
        r == v@.contains(x),
{
    let mut i: usize = 0;
    while i < v.len()
        invariant
            i <= v.len(),
            forall|k: int| 0 <= k < i ==> v@[k] != x,
        decreases v.len() - i,
    {
        if v[i] == x {
            return true;
        }
        i = i + 1;
    }
    false
}

/// Whether `v` holds the signed `x`.
fn holds_signed(v: &Vec<i32>, x: i32) -> (r: bool)
    ensures
        r == v@.contains(x),
{
    let mut i: usize = 0;
    while i < v.len()
        invariant
            i <= v.len(),
            forall|k: int| 0 <= k < i ==> v@[k] != x,
        decreases v.len() - i,
    {
        if v[i] == x {
            return true;
        }
        i = i + 1;
    }
    false
}

impl Fixture {
    /// Whether all neighbours of a block exist.
    fn neighbours_exist(&self, x: usize) -> (r: bool)
        requires
            x < self.nblocks() <= 0x7fff_ffff,
        ensures
            r == ((forall|i: int|
                0 <= i < self.blocks@[x as int].succs@.len() ==> 1
                    <= #[trigger] self.blocks@[x as int].succs@[i] <= self.nblocks()) && (forall|
                i: int,
            |
                0 <= i < self.blocks@[x as int].preds@.len()
                    ==> #[trigger] self.blocks@[x as int].preds@[i] <= self.nblocks())),
    {
        let b: &Block = &self.blocks[x];
        let n: usize = self.blocks.len();
        let mut i: usize = 0;
        while i < b.succs.len()
            invariant
                b == self.blocks@[x as int],
                n == self.nblocks(),
                n <= 0x7fff_ffff,
                i <= b.succs.len(),
                forall|k: int| 0 <= k < i ==> 1 <= #[trigger] b.succs@[k] <= n,
            decreases b.succs.len() - i,
        {
            if b.succs[i] < 1 || b.succs[i] as usize > n {
                return false;
            }
            i = i + 1;
        }
        let mut j: usize = 0;
        while j < b.preds.len()
            invariant
                b == self.blocks@[x as int],
                n == self.nblocks(),
                n <= 0x7fff_ffff,
                j <= b.preds.len(),
                forall|k: int| 0 <= k < j ==> #[trigger] b.preds@[k] <= n,
            decreases b.preds.len() - j,
        {
            if b.preds[j] as i64 > n as i64 {
                return false;
            }
            j = j + 1;
        }
        true
    }

    /// Whether a block's statements and neighbours exist.
    fn check_block(&self, x: usize) -> (r: bool)
        requires
            x < self.nblocks() <= 0x7fff_ffff,
        ensures
            r == self.block_fits(x as int),
    {
        let b: &Block = &self.blocks[x];
        let n: usize = self.blocks.len();
        if b.first < 1 || b.last < 1 || b.last as usize > self.stmts.len() {
            return false;
        }
        if !self.neighbours_exist(x) {
            return false;
        }
        match &self.stmts[(b.last - 1) as usize].stmt {
            Node::Goto { dest } => 1 <= *dest && *dest as usize <= n,
            Node::GotoIfNot { cond, dest } => 1 <= *dest && *dest as usize <= n && x + 1 < n,
            Node::Return { val } => true,
            _ => b.succs.len() > 0,
        }
    }

    /// Whether two blocks agree about the edge from `x` to `y`.
    fn agree(&self, x: usize, y: usize) -> (r: bool)
        requires
            x < self.nblocks() <= 0x7fff_ffff,
            y < self.nblocks(),
        ensures
            r == (self.follows(x as int, y as int) == self.precedes(x as int, y as int)),
    {
        holds(&self.blocks[x].succs, y as u32 + 1) == holds_signed(
            &self.blocks[y].preds,
            x as i32 + 1,
        )
    }

    /// Whether all pairs of blocks agree about the edges between them.
    fn edges_agree(&self) -> (r: bool)
        requires
            self.nblocks() <= 0x7fff_ffff,
        ensures
            r == forall|x: int, y: int|
                0 <= x < self.nblocks() && 0 <= y < self.nblocks() ==> #[trigger] self.follows(
                    x,
                    y,
                ) == self.precedes(x, y),
    {
        let n: usize = self.blocks.len();
        let mut x: usize = 0;
        while x < n
            invariant
                n == self.nblocks() <= 0x7fff_ffff,
                x <= n,
                forall|a: int, b: int|
                    0 <= a < x && 0 <= b < n ==> #[trigger] self.follows(a, b) == self.precedes(
                        a,
                        b,
                    ),
            decreases n - x,
        {
            let mut y: usize = 0;
            while y < n
                invariant
                    n == self.nblocks() <= 0x7fff_ffff,
                    x < n,
                    y <= n,
                    forall|b: int|
                        0 <= b < y ==> #[trigger] self.follows(x as int, b) == self.precedes(
                            x as int,
                            b,
                        ),
                decreases n - y,
            {
                if !self.agree(x, y) {
                    return false;
                }
                y = y + 1;
            }
            x = x + 1;
        }
        true
    }

    /// Whether everything a fixture refers to exists, and its blocks agree about the
    /// edges between them.
    pub fn is_well_formed(&self) -> (r: bool)
        ensures
            r == self.wf(),
    {
        let n: usize = self.blocks.len();
        let m: usize = self.stmts.len();
        if n == 0 || n > 0x7fff_ffff || m > 0x7fff_ffff {
            return false;
        }
        let mut x: usize = 0;
        while x < n
            invariant
                n == self.nblocks() <= 0x7fff_ffff,
                x <= n,
                forall|k: int| 0 <= k < x ==> #[trigger] self.block_fits(k),
            decreases n - x,
        {
            if !self.check_block(x) {
                return false;
            }
            x = x + 1;
        }
        let mut i: usize = 0;
        while i < m
            invariant
                m == self.nstmts(),
                i <= m,
                forall|k: int|
                    0 <= k < i ==> (#[trigger] self.stmts@[k]).stmt.fits(self.nstmts()),
            decreases m - i,
        {
            if !node_fits(&self.stmts[i].stmt, m) {
                return false;
            }
            i = i + 1;
        }
        self.edges_agree()
    }

    /// What decoding a serialised fixture gives: the fixture if it has the right
    /// format and is not empty.
    pub open spec fn accepted(decoded: Result<Fixture, Seq<u8>>) -> Result<Fixture, Seq<u8>> {
        match decoded {
            Err(m) => Err(m),
            Ok(fx) => if string_bytes(fx.format) != format_name() {
                Err(
                    utf8("fixture format ") + quoted(fx.format@) + utf8(", expected ") + quoted(
                        "ruju-aotc-fixture-1"@,
                    ),
                )
            } else if fx.blocks@.len() == 0 || fx.stmts@.len() == 0 {
                Err(utf8("empty fixture"))
            } else {
                Ok(fx)
            },
        }
    }

    /// Accepts a decoded fixture, or passes on the decoder's message.
    pub fn parse(decoded: Result<Fixture, Vec<u8>>) -> (r: Result<Fixture, Vec<u8>>)
        ensures
            told(r) == Fixture::accepted(told(decoded)),
    {
        match decoded {
            Err(m) => Err(m),
            Ok(fx) => {
                if !is_string(&fx.format, "ruju-aotc-fixture-1") {
                    let mut m: Vec<u8> = text("fixture format ");
                    let q: Vec<u8> = quote(fx.format.as_str());
                    push_bytes(&mut m, q.as_slice());
                    push_text(&mut m, ", expected ");
                    let e: Vec<u8> = quote("ruju-aotc-fixture-1");
                    push_bytes(&mut m, e.as_slice());
                    return Err(m);
                }
                if fx.blocks.len() == 0 || fx.stmts.len() == 0 {
                    return Err(text("empty fixture"));
                }
                Ok(fx)
            },
        }
    }
}

} // verus!
