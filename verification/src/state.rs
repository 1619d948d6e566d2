//! The runtime's state and its mathematical picture.
//!
//! A heap object is a block: a type tag, two collector bits and its payload
//! bytes. Blocks are addressed by their region offset, always a multiple of
//! eight. Layouts are plain runs of words that the collector never touches; they
//! are addressed alike. The collector's bookkeeping, the shadow stack, the symbol
//! table and the registries stand beside them.

use vstd::prelude::*;
use crate::bytes::{read_word, with_word, word_at, word_fits, write_word};
use crate::ir::{Entry, FnKind};
use crate::region::{Region, REGION_SIZE};

verus! {

/// A reference to a heap value: the region offset of its payload.
#[derive(Clone, Copy, PartialEq, Eq, Structural, Debug)]
pub struct Value(pub u32);

impl Value {
    /// Whether this is the null reference.
    pub fn is_null(self) -> (r: bool)
        ensures
            r == (self.0 == 0),
    {
        self.0 == 0
    }

    /// The underlying region offset.
    pub fn raw(self) -> (r: u32)
        ensures
            r == self.0,
    {
        self.0
    }
}

/// A heap block.
pub struct Obj {
    /// Offset of the block's type.
    pub tag: u32,
    /// The collector's mark bit.
    pub marked: bool,
    /// The collector's generation bit.
    pub old: bool,
    /// The payload.
    pub data: Vec<u8>,
}

/// The picture of a block.
#[verifier::ext_equal]
pub struct ObjV {
    pub tag: u32,
    pub marked: bool,
    pub old: bool,
    pub data: Seq<u8>,
}

impl View for Obj {
    type V = ObjV;

    open spec fn view(&self) -> ObjV {
        ObjV { tag: self.tag, marked: self.marked, old: self.old, data: self.data@ }
    }
}

/// The picture of a block slot.
pub open spec fn obj_view(o: Option<Obj>) -> Option<ObjV> {
    match o {
        Some(x) => Some(x@),
        None => None,
    }
}

/// The picture of a layout slot.
pub open spec fn words_view(l: Option<Vec<u32>>) -> Option<Seq<u32>> {
    match l {
        Some(x) => Some(x@),
        None => None,
    }
}

/// Metadata of one heap page: its slots all have the size `osize`.
pub struct Page {
    pub start: u32,
    pub osize: u32,
    /// Header offsets of the free slots; the last one is handed out first.
    pub free: Vec<u32>,
    pub live_n: u32,
    pub has_marked: bool,
    pub has_young: bool,
    pub nold: u32,
    pub prev_nold: u32,
    pub in_use: bool,
}

/// The picture of a page.
#[verifier::ext_equal]
pub struct PageV {
    pub start: u32,
    pub osize: u32,
    pub free: Seq<u32>,
    pub live_n: u32,
    pub has_marked: bool,
    pub has_young: bool,
    pub nold: u32,
    pub prev_nold: u32,
    pub in_use: bool,
}

impl View for Page {
    type V = PageV;

    open spec fn view(&self) -> PageV {
        PageV {
            start: self.start,
            osize: self.osize,
            free: self.free@,
            live_n: self.live_n,
            has_marked: self.has_marked,
            has_young: self.has_young,
            nold: self.nold,
            prev_nold: self.prev_nold,
            in_use: self.in_use,
        }
    }
}

/// The pages of one size class that may still have free slots.
pub struct Pool {
    pub osize: u32,
    pub page_q: Vec<usize>,
}

/// The picture of a pool.
#[verifier::ext_equal]
pub struct PoolV {
    pub osize: u32,
    pub page_q: Seq<usize>,
}

impl View for Pool {
    type V = PoolV;

    open spec fn view(&self) -> PoolV {
        PoolV { osize: self.osize, page_q: self.page_q@ }
    }
}

/// The collector's counters and policy state.
#[derive(Clone, Copy)]
pub struct Stats {
    /// Whether the previous sweep was full.
    pub prev_full: bool,
    /// Live objects.
    pub live: u64,
    /// Live and freshly allocated bytes.
    pub heap_size: u64,
    /// Collect once `heap_size` reaches this.
    pub heap_target: u64,
    /// Bytes promoted since the last full sweep.
    pub promoted: u64,
    /// `heap_size` as of the last full sweep.
    pub size_after_full: u64,
    /// Whether the next automatic collection is full.
    pub next_full: bool,
    /// Pages walked by the most recent sweep.
    pub pages_walked: u64,
}

/// An interned symbol: its text and its heap offset.
pub struct Sym {
    pub text: Vec<u8>,
    pub off: u32,
}

/// The picture of an interned symbol.
#[verifier::ext_equal]
pub struct SymV {
    pub text: Seq<u8>,
    pub off: u32,
}

impl View for Sym {
    type V = SymV;

    open spec fn view(&self) -> SymV {
        SymV { text: self.text@, off: self.off }
    }
}

/// Offsets of the core types, the value permboxes and the shared type names.
pub struct Builtins {
    /// The core types, indexed by their identifiers.
    pub types: Vec<u32>,
    /// The value every true `Bool` box shares.
    pub true_instance: u32,
    /// The value every false `Bool` box shares.
    pub false_instance: u32,
    /// The name shared by every tuple type.
    pub tuple_typename: u32,
    /// The name of `Box{T}`.
    pub box_typename: u32,
    /// The name of `Pair{A,B}`.
    pub pair_typename: u32,
    /// The name of `Type{T}`.
    pub type_typename: u32,
    /// The name of `GenericMemory{T}`.
    pub memory_typename: u32,
    /// The name of `Array{T}`.
    pub array_typename: u32,
    /// The layout shared by all array types.
    pub array_layout: u32,
}

/// The picture of the core types.
#[verifier::ext_equal]
pub struct BuiltinsV {
    pub types: Seq<u32>,
    pub true_instance: u32,
    pub false_instance: u32,
    pub tuple_typename: u32,
    pub box_typename: u32,
    pub pair_typename: u32,
    pub type_typename: u32,
    pub memory_typename: u32,
    pub array_typename: u32,
    pub array_layout: u32,
}

impl View for Builtins {
    type V = BuiltinsV;

    open spec fn view(&self) -> BuiltinsV {
        BuiltinsV {
            types: self.types@,
            true_instance: self.true_instance,
            false_instance: self.false_instance,
            tuple_typename: self.tuple_typename,
            box_typename: self.box_typename,
            pair_typename: self.pair_typename,
            type_typename: self.type_typename,
            memory_typename: self.memory_typename,
            array_typename: self.array_typename,
            array_layout: self.array_layout,
        }
    }
}

/// The picture of the optional core types.
pub open spec fn builtins_view(b: Option<Builtins>) -> Option<BuiltinsV> {
    match b {
        Some(x) => Some(x@),
        None => None,
    }
}

/// All runtime state.
pub struct Runtime {
    pub region: Region,
    pub objs: Vec<Option<Obj>>,
    /// The layouts, by offset.
    pub layouts: Vec<Option<Vec<u32>>>,
    pub pools: Vec<Pool>,
    pub pages: Vec<Page>,
    pub free_pages: Vec<usize>,
    pub remembered: Vec<u32>,
    pub stats: Stats,
    /// The shadow stack.
    pub roots: Vec<u32>,
    pub syms: Vec<Sym>,
    pub builtins: Option<Builtins>,
    /// Source-defined struct types, as pairs of a name symbol and a type.
    pub structs: Vec<(u32, u32)>,
    /// The methods of all generic functions, in order of definition.
    pub methods: Vec<Entry>,
    /// The types of callable values and what they resolve to.
    pub functions: Vec<(u32, FnKind)>,
    /// The next identifier of a generic function.
    pub next_func: u32,
    /// Exceptions being handled, innermost last.
    pub exc: Vec<u32>,
    /// The main module.
    pub main: u32,
}

/// The picture of the runtime's state.
#[verifier::ext_equal]
pub struct State {
    pub region: Region,
    pub objs: Seq<Option<ObjV>>,
    pub layouts: Seq<Option<Seq<u32>>>,
    pub pools: Seq<PoolV>,
    pub pages: Seq<PageV>,
    pub free_pages: Seq<usize>,
    pub remembered: Seq<u32>,
    pub stats: Stats,
    pub roots: Seq<u32>,
    pub syms: Seq<SymV>,
    pub builtins: Option<BuiltinsV>,
    pub structs: Seq<(u32, u32)>,
    pub methods: Seq<Entry>,
    pub functions: Seq<(u32, FnKind)>,
    pub next_func: u32,
    pub exc: Seq<u32>,
    pub main: u32,
}

impl View for Runtime {
    type V = State;

    open spec fn view(&self) -> State {
        State {
            region: self.region,
            objs: self.objs@.map_values(|o: Option<Obj>| obj_view(o)),
            layouts: self.layouts@.map_values(|l: Option<Vec<u32>>| words_view(l)),
            pools: self.pools@.map_values(|p: Pool| p@),
            pages: self.pages@.map_values(|p: Page| p@),
            free_pages: self.free_pages@,
            remembered: self.remembered@,
            stats: self.stats,
            roots: self.roots@,
            syms: self.syms@.map_values(|x: Sym| x@),
            builtins: builtins_view(self.builtins),
            structs: self.structs@,
            methods: self.methods@,
            functions: self.functions@,
            next_func: self.next_func,
            exc: self.exc@,
            main: self.main,
        }
    }
}

/// The number of block slots of the region.
pub const SLOTS: u32 = REGION_SIZE / 8;

impl State {
    /// Whether `off` addresses a block slot.
    pub open spec fn has_slot(self, off: u32) -> bool {
        off % 8 == 0 && off / 8 < self.objs.len()
    }

    /// The block at `off`, if there is one.
    pub open spec fn obj(self, off: u32) -> Option<ObjV> {
        if self.has_slot(off) {
            self.objs[(off / 8) as int]
        } else {
            None
        }
    }

    /// The state with the block slot at `off` set to `o`.
    pub open spec fn put(self, off: u32, o: Option<ObjV>) -> State {
        if self.has_slot(off) {
            State { objs: self.objs.update((off / 8) as int, o), ..self }
        } else {
            self
        }
    }

    /// The type tag of the block at `off`; the null reference where there is none.
    pub open spec fn tag(self, off: u32) -> u32 {
        match self.obj(off) {
            Some(o) => o.tag,
            None => 0,
        }
    }

    /// The payload of the block at `off`; empty where there is none.
    pub open spec fn data(self, off: u32) -> Seq<u8> {
        match self.obj(off) {
            Some(o) => o.data,
            None => Seq::empty(),
        }
    }

    /// The word at byte offset `i` of the block at `off`; zero outside a block.
    pub open spec fn word(self, off: u32, i: int) -> u32 {
        if word_fits(self.data(off), i) {
            word_at(self.data(off), i)
        } else {
            0
        }
    }

    /// The byte at byte offset `i` of the block at `off`; zero outside a block.
    pub open spec fn byte(self, off: u32, i: int) -> u8 {
        if 0 <= i < self.data(off).len() {
            self.data(off)[i]
        } else {
            0
        }
    }

    /// The state with `w` written at byte offset `i` of the block at `off`.
    pub open spec fn with_word(self, off: u32, i: int, w: u32) -> State {
        match self.obj(off) {
            Some(o) if word_fits(o.data, i) => self.put(
                off,
                Some(ObjV { data: with_word(o.data, i, w), ..o }),
            ),
            _ => self,
        }
    }

    /// The state with the byte `b` written at byte offset `i` of the block at `off`.
    pub open spec fn with_byte(self, off: u32, i: int, b: u8) -> State {
        match self.obj(off) {
            Some(o) if 0 <= i < o.data.len() => self.put(
                off,
                Some(ObjV { data: o.data.update(i, b), ..o }),
            ),
            _ => self,
        }
    }

    /// The state with the tag of the block at `off` set to `t`, low bits cleared.
    pub open spec fn with_tag(self, off: u32, t: u32) -> State {
        match self.obj(off) {
            Some(o) => self.put(off, Some(ObjV { tag: (t - t % 4) as u32, ..o })),
            None => self,
        }
    }

    /// Word `k` of the layout at `off`; zero outside a layout.
    pub open spec fn layout_word(self, off: u32, k: int) -> u32 {
        if off % 8 == 0 && off / 8 < self.layouts.len() {
            match self.layouts[(off / 8) as int] {
                Some(ws) => if 0 <= k < ws.len() {
                    ws[k]
                } else {
                    0
                },
                None => 0,
            }
        } else {
            0
        }
    }

    /// The state with the words `ws` as the layout at `off`.
    pub open spec fn put_layout(self, off: u32, ws: Seq<u32>) -> State {
        if off % 8 == 0 && off / 8 < self.layouts.len() {
            State { layouts: self.layouts.update((off / 8) as int, Some(ws)), ..self }
        } else {
            self
        }
    }

    /// The state with the collector bits of the block at `off` replaced.
    pub open spec fn with_bits(self, off: u32, marked: bool, old: bool) -> State {
        match self.obj(off) {
            Some(o) => self.put(off, Some(ObjV { marked, old, ..o })),
            None => self,
        }
    }

    /// The mark bit of the block at `off`.
    pub open spec fn is_marked(self, off: u32) -> bool {
        match self.obj(off) {
            Some(o) => o.marked,
            None => false,
        }
    }

    /// The generation bit of the block at `off`.
    pub open spec fn is_old(self, off: u32) -> bool {
        match self.obj(off) {
            Some(o) => o.old,
            None => false,
        }
    }

    /// The state with `v` pushed onto the shadow stack.
    pub open spec fn push_root(self, v: u32) -> State {
        State { roots: self.roots.push(v), ..self }
    }

    /// The state with `xs` pushed onto the shadow stack.
    pub open spec fn push_roots(self, xs: Seq<u32>) -> State {
        State { roots: self.roots + xs, ..self }
    }

    /// The state with the topmost `n` shadow-stack slots released.
    pub open spec fn pop_roots(self, n: int) -> State {
        if n <= self.roots.len() {
            State { roots: self.roots.take(self.roots.len() - n), ..self }
        } else {
            State { roots: Seq::empty(), ..self }
        }
    }

    /// The state with shadow-stack slot `i` set to `v`.
    pub open spec fn with_root(self, i: int, v: u32) -> State {
        if 0 <= i < self.roots.len() {
            State { roots: self.roots.update(i, v), ..self }
        } else {
            self
        }
    }
}

impl Runtime {
    /// A runtime with an uninitialised region.
    pub fn new() -> (r: Runtime)
        ensures
            r@.objs == Seq::new(SLOTS as nat, |i: int| None::<ObjV>),
            r@.layouts == Seq::new(SLOTS as nat, |i: int| None::<Seq<u32>>),
            r@.builtins is None,
            r@.roots.len() == 0,
            !r@.region.initialized,
            r@.region.top == 0,
            r@.pages.len() == 0,
            r@.pools.len() == 0,
            r@.free_pages.len() == 0,
            r@.remembered.len() == 0,
            r@.syms.len() == 0,
            r@.structs.len() == 0,
            r@.methods.len() == 0,
            r@.functions.len() == 0,
            r@.exc.len() == 0,
            r@.main == 0,
    {
        let mut objs: Vec<Option<Obj>> = Vec::new();
        let mut layouts: Vec<Option<Vec<u32>>> = Vec::new();
        let mut i: u32 = 0;
        while i < SLOTS
            invariant
                i <= SLOTS,
                objs.len() == i,
                layouts.len() == i,
                forall|k: int| 0 <= k < i ==> objs@[k] is None,
                forall|k: int| 0 <= k < i ==> layouts@[k] is None,
            decreases SLOTS - i,
        {
            objs.push(None);
            layouts.push(None);
            i = i + 1;
        }
        let r: Runtime = Runtime {
            region: Region { top: 0, initialized: false },
            objs,
            layouts,
            pools: Vec::new(),
            pages: Vec::new(),
            free_pages: Vec::new(),
            remembered: Vec::new(),
            stats: Stats {
                prev_full: false,
                live: 0,
                heap_size: 0,
                heap_target: 0,
                promoted: 0,
                size_after_full: 0,
                next_full: false,
                pages_walked: 0,
            },
            roots: Vec::new(),
            syms: Vec::new(),
            builtins: None,
            structs: Vec::new(),
            methods: Vec::new(),
            functions: Vec::new(),
            next_func: 0,
            exc: Vec::new(),
            main: 0,
        };
        assert(r@.objs =~= Seq::new(SLOTS as nat, |i: int| None::<ObjV>));
        assert(r@.layouts =~= Seq::new(SLOTS as nat, |i: int| None::<Seq<u32>>));
        r
    }

    /// The block at `off`, if there is one.
    pub fn obj(&self, off: u32) -> (r: Option<&Obj>)
        ensures
            match r {
                Some(x) => self@.obj(off) == Some(x@),
                None => self@.obj(off) is None,
            },
    {
        let i: usize = (off / 8) as usize;
        if off % 8 == 0 && i < self.objs.len() {
            assert(self@.objs[i as int] == obj_view(self.objs@[i as int]));
            self.objs[i].as_ref()
        } else {
            None
        }
    }

    /// Sets the block slot at `off`; reports whether `off` addresses a slot.
    pub fn put(&mut self, off: u32, o: Option<Obj>) -> (r: bool)
        ensures
            final(self)@ == old(self)@.put(off, obj_view(o)),
            r == old(self)@.has_slot(off),
    {
        let i: usize = (off / 8) as usize;
        if off % 8 == 0 && i < self.objs.len() {
            self.objs.set(i, o);
            true
        } else {
            false
        }
    }

    /// The word at byte offset `i` of the block at `off`.
    pub fn word(&self, off: u32, i: u64) -> (w: u32)
        ensures
            w == self@.word(off, i as int),
    {
        match self.obj(off) {
            Some(o) => {
                let n: u64 = o.data.len() as u64;
                if n >= 4 && i <= n - 4 {
                    read_word(&o.data, i as usize)
                } else {
                    0
                }
            },
            None => 0,
        }
    }

    /// Word `k` of the layout at `off`.
    pub fn layout_word(&self, off: u32, k: u64) -> (w: u32)
        ensures
            w == self@.layout_word(off, k as int),
    {
        let i: usize = (off / 8) as usize;
        if off % 8 == 0 && i < self.layouts.len() {
            assert(self@.layouts[i as int] == words_view(self.layouts@[i as int]));
            match &self.layouts[i] {
                Some(ws) => if k < ws.len() as u64 {
                    ws[k as usize]
                } else {
                    0
                },
                None => 0,
            }
        } else {
            0
        }
    }

    /// Places the words `ws` as the layout at `off`.
    pub fn put_layout(&mut self, off: u32, ws: Vec<u32>)
        ensures
            final(self)@ == old(self)@.put_layout(off, ws@),
    {
        let i: usize = (off / 8) as usize;
        if off % 8 == 0 && i < self.layouts.len() {
            self.layouts.set(i, Some(ws));
        }
    }

    /// The byte at byte offset `i` of the block at `off`.
    pub fn byte(&self, off: u32, i: u64) -> (b: u8)
        ensures
            b == self@.byte(off, i as int),
    {
        match self.obj(off) {
            Some(o) => {
                if i < o.data.len() as u64 {
                    o.data[i as usize]
                } else {
                    0
                }
            },
            None => 0,
        }
    }

    /// Writes the word `w` at byte offset `i` of the block at `off`.
    pub fn set_word(&mut self, off: u32, i: u64, w: u32)
        ensures
            final(self)@ == old(self)@.with_word(off, i as int, w),
    {
        let k: usize = (off / 8) as usize;
        if off % 8 == 0 && k < self.objs.len() {
            assert(self@.objs[k as int] == obj_view(self.objs@[k as int]));
            match &mut self.objs[k] {
                Some(o) => {
                    let n: u64 = o.data.len() as u64;
                    if n >= 4 && i <= n - 4 {
                        write_word(&mut o.data, i as usize, w);
                    }
                },
                None => {},
            }
        }
    }

    /// Writes the byte `b` at byte offset `i` of the block at `off`.
    pub fn set_byte(&mut self, off: u32, i: u64, b: u8)
        ensures
            final(self)@ == old(self)@.with_byte(off, i as int, b),
    {
        let k: usize = (off / 8) as usize;
        if off % 8 == 0 && k < self.objs.len() {
            assert(self@.objs[k as int] == obj_view(self.objs@[k as int]));
            match &mut self.objs[k] {
                Some(o) => {
                    if i < o.data.len() as u64 {
                        o.data.set(i as usize, b);
                    }
                },
                None => {},
            }
        }
    }

    /// Sets the type tag of the block at `off`, clearing the tag's low bits.
    pub fn set_tag(&mut self, off: u32, t: u32)
        ensures
            final(self)@ == old(self)@.with_tag(off, t),
    {
        let k: usize = (off / 8) as usize;
        if off % 8 == 0 && k < self.objs.len() {
            assert(self@.objs[k as int] == obj_view(self.objs@[k as int]));
            match &mut self.objs[k] {
                Some(o) => {
                    o.tag = t - t % 4;
                },
                None => {},
            }
        }
    }

    /// Sets the collector bits of the block at `off`.
    pub fn set_bits(&mut self, off: u32, marked: bool, old_bit: bool)
        ensures
            final(self)@ == old(self)@.with_bits(off, marked, old_bit),
    {
        let k: usize = (off / 8) as usize;
        if off % 8 == 0 && k < self.objs.len() {
            assert(self@.objs[k as int] == obj_view(self.objs@[k as int]));
            match &mut self.objs[k] {
                Some(o) => {
                    o.marked = marked;
                    o.old = old_bit;
                },
                None => {},
            }
        }
    }

    /// Pushes `v` onto the shadow stack.
    pub fn push_root(&mut self, v: u32)
        ensures
            final(self)@ == old(self)@.push_root(v),
    {
        self.roots.push(v);
    }

    /// Pushes `xs` onto the shadow stack.
    pub fn push_roots(&mut self, xs: &Vec<u32>)
        ensures
            final(self)@ == old(self)@.push_roots(xs@),
    {
        let mut i: usize = 0;
        assert(old(self)@ =~= old(self)@.push_roots(xs@.take(0)));
        while i < xs.len()
            invariant
                i <= xs.len(),
                self@ == old(self)@.push_roots(xs@.take(i as int)),
            decreases xs.len() - i,
        {
            self.roots.push(xs[i]);
            i = i + 1;
            assert(self@ =~= old(self)@.push_roots(xs@.take(i as int)));
        }
        assert(xs@.take(xs.len() as int) =~= xs@);
    }

    /// Releases the topmost `n` shadow-stack slots.
    pub fn pop_roots(&mut self, n: usize)
        ensures
            final(self)@ == old(self)@.pop_roots(n as int),
    {
        let len: usize = self.roots.len();
        if n <= len {
            self.roots.truncate(len - n);
            assert(self.roots@ =~= old(self).roots@.take(len - n));
        } else {
            self.roots.clear();
        }
    }

    /// Sets shadow-stack slot `i`.
    pub fn set_root(&mut self, i: usize, v: u32)
        ensures
            final(self)@ == old(self)@.with_root(i as int, v),
    {
        if i < self.roots.len() {
            self.roots.set(i, v);
        }
    }
}

} // verus!
