//! Interned symbols.
//!
//! A symbol is an object whose payload is its byte length followed by its UTF-8
//! text. Equal texts share one symbol, and symbols are never collected.

use vstd::prelude::*;
use crate::bytes::{copy_bytes, same_bytes};
use crate::gc::PAGE_SIZE;
use crate::object::alloc_object;
use crate::region::NULL;
use crate::state::{Runtime, State, Sym, SymV};

verus! {

/// The first symbol from position `i` on with the given text.
pub open spec fn sym_index(syms: Seq<SymV>, text: Seq<u8>, i: int) -> Option<int>
    decreases syms.len() - i,
{
    if i < 0 || i >= syms.len() {
        None
    } else if syms[i].text == text {
        Some(i)
    } else {
        sym_index(syms, text, i + 1)
    }
}

impl State {
    /// The state with `text` written at byte offset `4 + k` on of the block `v`.
    pub open spec fn fill(self, v: u32, base: int, text: Seq<u8>, k: int) -> State
        decreases text.len() - k,
    {
        if k < 0 || k >= text.len() {
            self
        } else {
            self.with_byte(v, base + k, text[k]).fill(v, base, text, k + 1)
        }
    }

    /// Interns `text` as a symbol of type `t`: the symbol already interned, else a
    /// fresh one. A text that no heap page can hold gives the null reference.
    #[verifier::opaque]
    pub open spec fn intern(self, t: u32, text: Seq<u8>) -> (State, u32) {
        if text.len() > PAGE_SIZE {
            (self, NULL)
        } else {
            self.intern_short(t, text)
        }
    }

    /// Interns a text that fits in a heap page.
    pub open spec fn intern_short(self, t: u32, text: Seq<u8>) -> (State, u32) {
        match sym_index(self.syms, text, 0) {
            Some(i) => (self, self.syms[i].off),
            None => {
                let (s, v) = self.alloc_object(t, 4 + text.len() as int);
                let s1 = s.with_word(v, 0, text.len() as u32).fill(v, 4, text, 0);
                (State { syms: s1.syms.push(SymV { text, off: v }), ..s1 }, v)
            },
        }
    }

    /// The byte length of the symbol at `sym`.
    pub open spec fn sym_len(self, sym: u32) -> u32 {
        self.word(sym, 0)
    }

    /// The text of the symbol at `sym`.
    pub open spec fn sym_text(self, sym: u32) -> Seq<u8> {
        Seq::new(self.sym_len(sym) as nat, |i: int| self.byte(sym, 4 + i))
    }
}

/// Forgets all symbols.
pub fn reset(rt: &mut Runtime)
    ensures
        final(rt)@ == (State { syms: Seq::empty(), ..old(rt)@ }),
{
    rt.syms.clear();
}

/// Writes bytes into the block `v` from byte offset `base` on.
pub fn fill(rt: &mut Runtime, v: u32, base: u32, text: &[u8])
    requires
        text@.len() <= 0xffff_ffff,
    ensures
        final(rt)@ == old(rt)@.fill(v, base as int, text@, 0),
{
    let mut k: usize = 0;
    while k < text.len()
        invariant
            k <= text.len() <= 0xffff_ffff,
            old(rt)@.fill(v, base as int, text@, 0) == rt@.fill(v, base as int, text@, k as int),
        decreases text.len() - k,
    {
        rt.set_byte(v, base as u64 + k as u64, text[k]);
        k = k + 1;
    }
}

/// Interns `text` as a symbol of type `symbol_type` and returns its offset; equal
/// texts give the same symbol.
pub fn intern_bytes(rt: &mut Runtime, symbol_type: u32, text: &[u8]) -> (r: u32)
    ensures
        (final(rt)@, r) == old(rt)@.intern(symbol_type, text@),
{
    proof {
        reveal(State::intern);
    }
    if text.len() > PAGE_SIZE as usize {
        return NULL;
    }
    let mut i: usize = 0;
    while i < rt.syms.len()
        invariant
            i <= rt.syms.len(),
            *rt == *old(rt),
            text@.len() <= PAGE_SIZE,
            sym_index(rt@.syms, text@, 0) == sym_index(rt@.syms, text@, i as int),
        decreases rt.syms.len() - i,
    {
        assert(rt@.syms[i as int] == rt.syms@[i as int]@);
        if same_bytes(&rt.syms[i].text, text) {
            proof {
                reveal(State::intern);
            }
            return rt.syms[i].off;
        }
        i = i + 1;
    }
    let n: u32 = text.len() as u32;
    let v: u32 = alloc_object(rt, symbol_type, 4 + n).0;
    rt.set_word(v, 0, n);
    fill(rt, v, 4, text);
    rt.syms.push(Sym { text: copy_bytes(text), off: v });
    v
}

/// Interns the text of `s`.
pub fn intern(rt: &mut Runtime, symbol_type: u32, s: &str) -> (r: u32)
    ensures
        (final(rt)@, r) == old(rt)@.intern(symbol_type, crate::bytes::utf8(s)),
{
    intern_bytes(rt, symbol_type, s.as_bytes())
}

/// The byte length of the symbol at `sym`.
pub fn len(rt: &Runtime, sym: u32) -> (r: u32)
    ensures
        r == rt@.sym_len(sym),
{
    rt.word(sym, 0)
}

/// The text of the symbol at `sym`, as UTF-8 bytes.
pub fn as_str(rt: &Runtime, sym: u32) -> (r: Vec<u8>)
    ensures
        r@ == rt@.sym_text(sym),
{
    let n: u32 = len(rt, sym);
    let mut r: Vec<u8> = Vec::new();
    let mut i: u32 = 0;
    while i < n
        invariant
            i <= n,
            n == rt@.sym_len(sym),
            r.len() == i,
            forall|k: int| 0 <= k < i ==> r@[k] == rt@.byte(sym, 4 + k),
        decreases n - i,
    {
        r.push(rt.byte(sym, 4 + i as u64));
        i = i + 1;
    }
    assert(r@ =~= rt@.sym_text(sym));
    r
}

/// The offsets of all interned symbols.
pub fn each_interned(rt: &Runtime) -> (r: Vec<u32>)
    ensures
        r@ == rt@.syms.map_values(|x: SymV| x.off),
{
    let mut r: Vec<u32> = Vec::new();
    let mut i: usize = 0;
    while i < rt.syms.len()
        invariant
            i <= rt.syms.len(),
            r.len() == i,
            forall|k: int| 0 <= k < i ==> r@[k] == rt@.syms[k].off,
        decreases rt.syms.len() - i,
    {
        r.push(rt.syms[i].off);
        i = i + 1;
    }
    assert(r@ =~= rt@.syms.map_values(|x: SymV| x.off));
    r
}

pub proof fn lemma_sym_index(syms: Seq<SymV>, x: SymV, i: int)
    requires
        0 <= i,
    ensures
        match sym_index(syms, x.text, i) {
            Some(j) => i <= j < syms.len() && syms[j].text == x.text,
            None => i <= syms.len() ==> sym_index(syms.push(x), x.text, i) == Some(
                syms.len() as int,
            ),
        },
    decreases syms.len() - i,
{
    if i < syms.len() && syms[i].text != x.text {
        lemma_sym_index(syms, x, i + 1);
    } else if i == syms.len() {
        assert(syms.push(x)[i] == x);
    }
    if i < syms.len() {
        assert(syms.push(x)[i] == syms[i]);
    }
}

/// Interning a text twice gives the same symbol, and the second time changes
/// nothing.
pub proof fn law_intern_is_stable(s: State, t: u32, u: u32, text: Seq<u8>)
    ensures
        ({
            let (s1, v) = s.intern(t, text);
            s1.intern(u, text) == (s1, v)
        }),
{
    reveal(State::intern);
    if text.len() <= PAGE_SIZE && sym_index(s.syms, text, 0) is None {
        let (a, v) = s.alloc_object(t, 4 + text.len() as int);
        crate::object::lemma_alloc_object_keeps(s, t, 4 + text.len() as int);
        lemma_fill_keeps(a.with_word(v, 0, text.len() as u32), v, 4, text, 0);
        lemma_sym_index(s.syms, SymV { text, off: v }, 0);
    }
}

/// Filling a block changes its bytes alone.
pub proof fn lemma_fill_keeps(s: State, v: u32, base: int, text: Seq<u8>, k: int)
    ensures
        s.fill(v, base, text, k) == (State { objs: s.fill(v, base, text, k).objs, ..s }),
        s.fill(v, base, text, k).objs.len() == s.objs.len(),
    decreases text.len() - k,
{
    if !(k < 0 || k >= text.len()) {
        lemma_fill_keeps(s.with_byte(v, base + k, text[k]), v, base, text, k + 1);
    }
}

/// The bytes that were filled in are read back, and the bytes before them stay.
pub proof fn lemma_fill(s: State, v: u32, base: int, text: Seq<u8>, k: int)
    requires
        0 <= base,
        0 <= k <= text.len(),
        base + text.len() <= s.data(v).len(),
    ensures
        ({
            let e = s.fill(v, base, text, k);
            &&& e.data(v).len() == s.data(v).len()
            &&& forall|i: int| 0 <= i < base + k ==> #[trigger] e.data(v)[i] == s.data(v)[i]
            &&& forall|i: int| k <= i < text.len() ==> e.data(v)[base + i] == #[trigger] text[i]
        }),
    decreases text.len() - k,
{
    if k < text.len() {
        let a = s.with_byte(v, base + k, text[k]);
        assert(a.data(v) == s.data(v).update(base + k, text[k]));
        lemma_fill(a, v, base, text, k + 1);
    }
}

/// A text interned for the first time is the text of its symbol.
pub proof fn law_symbol_text(s: State, t: u32, text: Seq<u8>)
    requires
        sym_index(s.syms, text, 0) is None,
        s.intern(t, text).1 != NULL,
    ensures
        ({
            let (s1, v) = s.intern(t, text);
            s1.sym_text(v) == text
        }),
{
    reveal(State::intern);
    let n = 4 + text.len() as int;
    let (a, v) = s.alloc_object(t, n);
    crate::object::law_alloc_object(s, t, n);
    let b = a.with_word(v, 0, text.len() as u32);
    assert(b.data(v).len() == n) by {
        crate::bytes::lemma_word_read_write(a.data(v), 0, text.len() as u32);
    }
    crate::bytes::lemma_word_read_write(a.data(v), 0, text.len() as u32);
    lemma_fill(b, v, 4, text, 0);
    let c = b.fill(v, 4, text, 0);
    let (e, _) = s.intern(t, text);
    assert(e.obj(v) == c.obj(v));
    assert(e.word(v, 0) == text.len()) by {
        assert(forall|i: int| 0 <= i < 4 ==> #[trigger] c.data(v)[i] == b.data(v)[i]);
        assert(crate::bytes::word_at(c.data(v), 0) == crate::bytes::word_at(b.data(v), 0));
    }
    assert forall|i: int| 0 <= i < text.len() implies e.byte(v, 4 + i) == text[i] by {
        assert(c.data(v)[4 + i] == text[i]);
    }
    assert(e.sym_text(v) =~= text);
}

} // verus!
