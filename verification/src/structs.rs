//! Struct types: layout, definition, construction and field access.
//!
//! A field whose declared type is concrete, immutable and free of references is
//! stored inline, as bits; every other field is a reference.

use vstd::prelude::*;
use crate::access;
use crate::access::MAX_NESTING;
use crate::bytes::{decimal, decimal_text, push_bytes, push_text, text, told, utf8};
use crate::id;
use crate::object::{alloc_object, get_ref, set_ref, type_of};
use crate::region::NULL;
use crate::state::{Runtime, State, Value};
use crate::symbol;
use crate::types;
use crate::types::{issubtype, DataType, DT_SIZE};

verus! {

/// The place of a field in an instance.
#[derive(Clone, Copy, PartialEq, Eq, Structural)]
pub struct FieldDesc {
    pub offset: u32,
    pub size: u32,
    pub isptr: bool,
}

/// The layout of a struct: its size, the offsets of its references, its fields.
#[verifier::ext_equal]
pub struct LayoutV {
    pub size: u32,
    pub ptrs: Seq<u32>,
    pub descs: Seq<FieldDesc>,
    /// The largest alignment of a field.
    pub align: u32,
}

/// `n`, or the largest `u32` if that is smaller.
pub open spec fn clip(n: int) -> u32 {
    if n > 0xffff_ffff {
        0xffff_ffffu32
    } else {
        n as u32
    }
}

/// The first multiple of `al` that is not below `n`.
pub open spec fn round_up(n: int, al: int) -> int {
    if al <= 0 {
        n
    } else {
        ((n + al - 1) / al) * al
    }
}

/// The layout with one more field of size `fsz` and alignment `al`.
pub open spec fn place_field(l: LayoutV, fsz: u32, al: u32, isptr: bool) -> LayoutV {
    let off = clip(round_up(l.size as int, al as int));
    LayoutV {
        size: clip(off + fsz),
        ptrs: if isptr {
            l.ptrs.push(off)
        } else {
            l.ptrs
        },
        descs: l.descs.push(FieldDesc { offset: off, size: fsz, isptr }),
        align: if al > l.align {
            al
        } else {
            l.align
        },
    }
}

/// The descriptor words of the first `n` fields.
pub open spec fn desc_words(descs: Seq<FieldDesc>, n: int) -> Seq<u32>
    decreases n,
{
    if n <= 0 || n > descs.len() {
        Seq::empty()
    } else {
        desc_words(descs, n - 1) + seq![
            descs[n - 1].offset,
            descs[n - 1].size,
            if descs[n - 1].isptr {
                1u32
            } else {
                0u32
            },
        ]
    }
}

/// The message for an index past the last field.
pub open spec fn field_bounds_text(i: u32) -> Seq<u8> {
    utf8("BoundsError: field index ") + decimal((i + 1) as nat)
}

impl State {
    /// Whether a field of declared type `ft` is stored inline.
    pub open spec fn is_inline_field(self, ft: u32) -> bool {
        &&& self.is_datatype(ft)
        &&& !self.is_abstract(ft)
        &&& !self.is_mutable(ft)
        &&& self.is_primitive(ft) || (self.nfields_of(ft) > 0 && self.layout_npointers(ft) == 0)
            || self.instance_of(ft) != NULL
    }

    /// The alignment of an inline value of type `t`: a primitive's size up to
    /// eight, a struct's largest field alignment, one otherwise.
    pub open spec fn type_alignment(self, t: u32, fuel: nat) -> u32
        decreases fuel, 1nat, 0int,
    {
        if self.is_primitive(t) {
            if self.size_of(t) < 1 {
                1
            } else if self.size_of(t) > 8 {
                8
            } else {
                self.size_of(t)
            }
        } else if fuel == 0 {
            1
        } else {
            self.fields_alignment(t, self.nfields_of(t) as int, fuel)
        }
    }

    /// The largest alignment of the first `n` fields of `t`, at least one.
    pub open spec fn fields_alignment(self, t: u32, n: int, fuel: nat) -> u32
        decreases fuel, 0nat, n,
    {
        if n <= 0 || fuel == 0 {
            1
        } else {
            let rest = self.fields_alignment(t, n - 1, fuel);
            let al = if self.field_isptr(t, n - 1) {
                4
            } else {
                self.type_alignment(self.field_type(t, n - 1), (fuel - 1) as nat)
            };
            if al > rest {
                al
            } else {
                rest
            }
        }
    }

    /// The layout of the first `n` of the given field types, not yet padded.
    pub open spec fn place_fields(self, fts: Seq<u32>, n: int) -> LayoutV
        decreases n,
    {
        if n <= 0 || n > fts.len() {
            LayoutV { size: 0, ptrs: Seq::empty(), descs: Seq::empty(), align: 1 }
        } else {
            let l = self.place_fields(fts, n - 1);
            let ft = fts[n - 1];
            if self.is_inline_field(ft) {
                place_field(l, self.size_of(ft), self.type_alignment(ft, MAX_NESTING as nat), false)
            } else {
                place_field(l, 4, 4, true)
            }
        }
    }

    /// The layout of the given field types, padded to the struct's alignment.
    pub open spec fn field_layout(self, fts: Seq<u32>) -> LayoutV {
        let l = self.place_fields(fts, fts.len() as int);
        LayoutV { size: clip(round_up(l.size as int, l.align as int)), ..l }
    }

    /// The layout of a struct.
    pub open spec fn struct_layout(self, l: LayoutV) -> (State, u32) {
        if l.descs.len() == 0 {
            (self, NULL)
        } else {
            self.place_words(
                seq![l.ptrs.len() as u32] + l.ptrs + desc_words(l.descs, l.descs.len() as int),
            )
        }
    }

    /// The symbols of the first `n` field names, interned in order.
    pub open spec fn intern_names(
        self,
        fields: Seq<(Seq<u8>, u32)>,
        n: int,
    ) -> (State, Seq<u32>)
        decreases n,
    {
        if n <= 0 || n > fields.len() {
            (self, Seq::empty())
        } else {
            let (s, rest) = self.intern_names(fields, n - 1);
            let (s1, sym) = s.intern(s.builtin(id::SYMBOL), fields[n - 1].0);
            (s1, rest.push(sym))
        }
    }

    /// Makes the type of a struct; what it is made of stays on the shadow stack.
    pub open spec fn define_type(
        self,
        name: Seq<u8>,
        super_: u32,
        fields: Seq<(Seq<u8>, u32)>,
        mutabl: bool,
    ) -> (State, u32) {
        let fts = fields.map_values(|f: (Seq<u8>, u32)| f.1);
        let s0 = self.push_roots(fts.push(super_));
        let (s1, sym) = s0.intern(s0.builtin(id::SYMBOL), name);
        let (s2, tn) = s1.make_typename(s1.builtin(id::TYPENAME), sym);
        let s3 = s2.push_root(tn).with_word(
            tn,
            12,
            if mutabl {
                1
            } else {
                0
            },
        );
        let l = s3.field_layout(fts);
        let (s4, syms) = s3.intern_names(fields, fields.len() as int);
        let (s5, names) = s4.make_svec(syms);
        let (s6, types) = s5.push_root(names).set_ref(tn, 8, names).make_svec(fts);
        let (s7, layout) = s6.push_root(types).struct_layout(l);
        let (s8, t) = s7.alloc_object(s7.builtin(id::DATATYPE), DT_SIZE as int);
        let s9 = s8.write_dt(
            t,
            DataType {
                name: tn,
                super_,
                parameters: NULL,
                types,
                instance: NULL,
                layout,
                size: l.size,
                nfields: fields.len() as u32,
                flags: 0,
            },
        );
        (s9, t)
    }

    /// A new struct type. A struct without fields that is not mutable has one
    /// instance, made at once.
    #[verifier::opaque]
    pub open spec fn define_struct(
        self,
        name: Seq<u8>,
        super_: u32,
        fields: Seq<(Seq<u8>, u32)>,
        mutabl: bool,
    ) -> (State, u32) {
        let (s9, t) = self.define_type(name, super_, fields, mutabl);
        let n = fields.len() as int + 4;
        if fields.len() == 0 && !mutabl {
            let (s10, inst) = s9.push_root(t).alloc_object(t, 0);
            (s10.set_ref(t, 16, inst).pop_roots(n + 1), t)
        } else {
            (s9.pop_roots(n), t)
        }
    }

    /// The registered struct type named by `sym` among the first `n`, the last one
    /// first.
    pub open spec fn struct_named(self, sym: u32, n: int) -> Option<u32>
        decreases n,
    {
        if n <= 0 || n > self.structs.len() {
            None
        } else if self.structs[n - 1].0 == sym {
            Some(self.structs[n - 1].1)
        } else {
            self.struct_named(sym, n - 1)
        }
    }

    pub open spec fn lookup_struct(self, sym: u32) -> Option<u32> {
        self.struct_named(sym, self.structs.len() as int)
    }

    /// Whether the fields of `t` from `i` on are the given ones.
    pub open spec fn same_fields(
        self,
        t: u32,
        fields: Seq<(Seq<u8>, u32)>,
        i: int,
    ) -> (State, bool)
        decreases fields.len() - i,
    {
        if i < 0 || i >= fields.len() {
            (self, true)
        } else {
            let (s, sym) = self.intern(self.builtin(id::SYMBOL), fields[i].0);
            if s.svec_ref(s.field_names(t), i) == sym && s.field_type(t, i) == fields[i].1 {
                s.same_fields(t, fields, i + 1)
            } else {
                (s, false)
            }
        }
    }

    /// Defines a struct from source: an identical definition is reused, another one
    /// of the same name is an error.
    #[verifier::opaque]
    pub open spec fn define_struct_from_source(
        self,
        name: Seq<u8>,
        fields: Seq<(Seq<u8>, u32)>,
        mutabl: bool,
    ) -> (State, Result<u32, Seq<u8>>) {
        let (s, sym) = self.intern(self.builtin(id::SYMBOL), name);
        match s.lookup_struct(sym) {
            Some(t) => {
                let (s1, same) = if s.is_mutable(t) == mutabl && s.nfields_of(t) == fields.len() {
                    s.same_fields(t, fields, 0)
                } else {
                    (s, false)
                };
                if same {
                    (s1, Ok(t))
                } else {
                    (s1, Err(utf8("invalid redefinition of constant ") + name))
                }
            },
            None => {
                let (s1, t) = s.define_struct(name, s.builtin(id::ANY), fields, mutabl);
                (State { structs: s1.structs.push((sym, t)), ..s1 }, Ok(t))
            },
        }
    }

    /// The position of the symbol `sym` among the elements of `names` from `i` on.
    pub open spec fn name_position(self, names: u32, sym: u32, i: int) -> Option<u32>
        decreases self.svec_len(names) - i,
    {
        if i < 0 || i >= self.svec_len(names) {
            None
        } else if self.svec_ref(names, i) == sym {
            Some(i as u32)
        } else {
            self.name_position(names, sym, i + 1)
        }
    }

    /// The index of the field of `t` named by the symbol `sym`.
    pub open spec fn field_index(self, t: u32, sym: u32) -> Option<u32> {
        if self.field_names(t) == NULL {
            None
        } else {
            self.name_position(self.field_names(t), sym, 0)
        }
    }

    /// Whether `v` is an instance of `t`.
    pub open spec fn is_a(self, v: u32, t: u32) -> (State, bool) {
        self.subtype(self.tag(v), t, MAX_NESTING as nat)
    }

    /// The first of the values from `i` on that is not an instance of its field's
    /// type.
    pub open spec fn misfit(self, t: u32, args: Seq<Value>, i: int) -> (State, Option<int>)
        decreases args.len() - i,
    {
        if i < 0 || i >= args.len() {
            (self, None)
        } else {
            let (s, ok) = self.is_a(args[i].0, self.field_type(t, i));
            if ok {
                s.misfit(t, args, i + 1)
            } else {
                (s, Some(i))
            }
        }
    }

    /// The state with `n` bytes copied, from position `k` of the copy on.
    pub open spec fn copy_payload(
        self,
        dst: u32,
        at: int,
        src: u32,
        from: int,
        n: int,
        k: int,
    ) -> State
        decreases n - k,
    {
        if k < 0 || k >= n {
            self
        } else {
            self.with_byte(dst, at + k, self.byte(src, from + k)).copy_payload(
                dst,
                at,
                src,
                from,
                n,
                k + 1,
            )
        }
    }

    /// Stores `rhs` in field `i` of the instance `v` of `t`.
    pub open spec fn set_field_raw(self, v: u32, t: u32, i: int, rhs: u32) -> State {
        if self.field_isptr(t, i) {
            self.set_ref(v, self.field_offset(t, i) as int, rhs)
        } else {
            self.copy_payload(
                v,
                self.field_offset(t, i) as int,
                rhs,
                0,
                self.field_size(t, i) as int,
                0,
            )
        }
    }

    /// Stores the values from `i` on in the fields of `v`.
    pub open spec fn set_fields(self, v: u32, t: u32, args: Seq<Value>, i: int) -> State
        decreases args.len() - i,
    {
        if i < 0 || i >= args.len() {
            self
        } else {
            self.set_field_raw(v, t, i, args[i].0).set_fields(v, t, args, i + 1)
        }
    }

    /// An instance of the struct type `t`.
    #[verifier::opaque]
    pub open spec fn new_struct(
        self,
        t: u32,
        args: Seq<Value>,
    ) -> (State, Result<Value, Seq<u8>>) {
        if !self.is_datatype(t) || self.is_abstract(t) {
            (self, Err(utf8("new: not a concrete struct type")))
        } else if args.len() != self.nfields_of(t) {
            (
                self,
                Err(
                    utf8("invalid struct allocation: ") + decimal(args.len()) + utf8(" of ")
                        + decimal(self.nfields_of(t) as nat) + utf8(" fields"),
                ),
            )
        } else {
            let roots = args.map_values(|v: Value| v.0);
            let (s, bad) = self.push_roots(roots).misfit(t, args, 0);
            match bad {
                Some(i) => (
                    s.pop_roots(args.len() as int),
                    Err(
                        utf8("TypeError: new: expected field ") + decimal((i + 1) as nat) + utf8(
                            " to match its declared type",
                        ),
                    ),
                ),
                None => if s.instance_of(t) != NULL {
                    (s.pop_roots(args.len() as int), Ok(Value(s.instance_of(t))))
                } else {
                    let (s1, v) = s.alloc_object(t, s.size_of(t) as int);
                    if v == NULL {
                        (s1.pop_roots(args.len() as int), Err(utf8("out of memory")))
                    } else {
                        (
                            s1.set_fields(v, t, args, 0).pop_roots(args.len() as int),
                            Ok(Value(v)),
                        )
                    }
                },
            }
        }
    }

    /// The value of field `i` of `v`; an inline field is boxed anew.
    #[verifier::opaque]
    pub open spec fn get_nth_field(self, v: u32, i: u32) -> (State, Result<Value, Seq<u8>>) {
        let t = self.tag(v);
        if i >= self.nfields_of(t) {
            (self, Err(field_bounds_text(i)))
        } else if self.field_isptr(t, i as int) {
            (self, Ok(Value(self.word(v, self.field_offset(t, i as int) as int))))
        } else {
            let ft = self.field_type(t, i as int);
            let n = self.field_size(t, i as int);
            if self.instance_of(ft) != NULL {
                (self, Ok(Value(self.instance_of(ft))))
            } else {
                let (s, b) = self.push_root(v).alloc_object(ft, n as int);
                if b == NULL {
                    (s.pop_roots(1), Err(utf8("out of memory")))
                } else {
                    (
                        s.pop_roots(1).copy_payload(
                            b,
                            0,
                            v,
                            self.field_offset(t, i as int) as int,
                            n as int,
                            0,
                        ),
                        Ok(Value(b)),
                    )
                }
            }
        }
    }

    /// Assigns field `i` of the mutable struct `v`.
    #[verifier::opaque]
    pub open spec fn set_nth_field(
        self,
        v: u32,
        i: u32,
        rhs: u32,
    ) -> (State, Result<(), Seq<u8>>) {
        let t = self.tag(v);
        if !self.is_mutable(t) {
            (
                self,
                Err(
                    utf8("setfield!: immutable struct of type ") + self.sym_text(self.type_sym(t))
                        + utf8(" cannot be changed"),
                ),
            )
        } else if i >= self.nfields_of(t) {
            (self, Err(field_bounds_text(i)))
        } else {
            let (s, ok) = self.push_roots(seq![v, rhs]).is_a(rhs, self.field_type(t, i as int));
            let s1 = s.pop_roots(2);
            if ok {
                (s1.set_field_raw(v, t, i as int, rhs), Ok(()))
            } else {
                (s1, Err(utf8("TypeError: setfield!: value does not match the field type")))
            }
        }
    }
}

/// The picture of a list of named field types.
pub open spec fn fields_view(fields: Seq<(Vec<u8>, u32)>) -> Seq<(Seq<u8>, u32)> {
    fields.map_values(|f: (Vec<u8>, u32)| (f.0@, f.1))
}

/// A layout under construction.
struct Layout {
    size: u32,
    ptrs: Vec<u32>,
    descs: Vec<FieldDesc>,
    align: u32,
}

impl View for Layout {
    type V = LayoutV;

    closed spec fn view(&self) -> LayoutV {
        LayoutV { size: self.size, ptrs: self.ptrs@, descs: self.descs@, align: self.align }
    }
}

/// Whether a field of declared type `ft` is stored inline.
fn is_inline_field(rt: &Runtime, ft: u32) -> (r: bool)
    ensures
        r == rt@.is_inline_field(ft),
{
    if !access::is_datatype(rt, ft) || access::is_abstract(rt, ft) || access::is_mutable(rt, ft) {
        return false;
    }
    access::is_primitive(rt, ft) || (access::nfields_of(rt, ft) > 0 && access::layout_npointers(
        rt,
        ft,
    ) == 0) || access::instance_of(rt, ft) != NULL
}

/// The alignment of an inline value of type `t`.
fn type_alignment(rt: &Runtime, t: u32, fuel: u32) -> (r: u32)
    ensures
        r == rt@.type_alignment(t, fuel as nat),
    decreases fuel,
{
    if access::is_primitive(rt, t) {
        let n: u32 = access::size_of(rt, t);
        return if n < 1 {
            1
        } else if n > 8 {
            8
        } else {
            n
        };
    }
    if fuel == 0 {
        return 1;
    }
    let nf: u32 = access::nfields_of(rt, t);
    let mut best: u32 = 1;
    let mut i: u32 = 0;
    while i < nf
        invariant
            i <= nf,
            fuel > 0,
            nf == rt@.nfields_of(t),
            best == rt@.fields_alignment(t, i as int, fuel as nat),
        decreases nf - i,
    {
        let al: u32 = if access::field_isptr(rt, t, i) {
            4
        } else {
            type_alignment(rt, access::field_type(rt, t, i), fuel - 1)
        };
        if al > best {
            best = al;
        }
        i = i + 1;
    }
    best
}

/// The sum of two numbers, saturating.
pub(crate) fn add_clipped(a: u32, b: u32) -> (r: u32)
    ensures
        r == clip(a + b),
{
    let n: u64 = a as u64 + b as u64;
    if n > 0xffff_ffff {
        0xffff_ffff
    } else {
        n as u32
    }
}

/// The first multiple of `al` that is not below `n`, saturating.
fn align_offset(n: u32, al: u32) -> (r: u32)
    ensures
        r == clip(round_up(n as int, al as int)),
{
    if al == 0 {
        return n;
    }
    let a: u64 = al as u64;
    let q: u64 = (n as u64 + a - 1) / a;
    assert(q * a <= n + a - 1) by (nonlinear_arith)
        requires
            q == (n + a - 1) / (a as int),
            a > 0,
    ;
    assert(q * a >= 0) by (nonlinear_arith)
        requires
            q >= 0,
            a > 0,
    ;
    let m: u64 = q * a;
    if m > 0xffff_ffff {
        0xffff_ffff
    } else {
        m as u32
    }
}

/// Computes the layout of the given field types.
fn compute_field_offsets(rt: &Runtime, fts: &Vec<u32>) -> (r: Layout)
    ensures
        r@ == rt@.field_layout(fts@),
{
    let mut l: Layout = Layout { size: 0, ptrs: Vec::new(), descs: Vec::new(), align: 1 };
    let mut i: usize = 0;
    assert(l@ =~= rt@.place_fields(fts@, 0));
    while i < fts.len()
        invariant
            i <= fts.len(),
            l@ == rt@.place_fields(fts@, i as int),
        decreases fts.len() - i,
    {
        let ft: u32 = fts[i];
        let inline: bool = is_inline_field(rt, ft);
        let mut fsz: u32 = 4;
        let mut al: u32 = 4;
        if inline {
            fsz = access::size_of(rt, ft);
            al = type_alignment(rt, ft, MAX_NESTING);
        }
        let ghost l0 = l@;
        let off: u32 = align_offset(l.size, al);
        if al > l.align {
            l.align = al;
        }
        if !inline {
            l.ptrs.push(off);
        }
        l.descs.push(FieldDesc { offset: off, size: fsz, isptr: !inline });
        let end: u64 = off as u64 + fsz as u64;
        l.size = if end > 0xffff_ffff {
            0xffff_ffff
        } else {
            end as u32
        };
        assert(l@ =~= place_field(l0, fsz, al, !inline));
        i = i + 1;
    }
    l.size = align_offset(l.size, l.align);
    l
}

/// Makes the layout of a struct.
fn make_struct_layout(rt: &mut Runtime, l: &Layout) -> (r: u32)
    ensures
        (final(rt)@, r) == old(rt)@.struct_layout(l@),
{
    if l.descs.len() == 0 {
        return NULL;
    }
    let mut ws: Vec<u32> = Vec::new();
    ws.push(l.ptrs.len() as u32);
    let mut rest: Vec<u32> = crate::gc::copy_words(&l.ptrs);
    ws.append(&mut rest);
    let ghost head = seq![l.ptrs.len() as u32] + l.ptrs@;
    assert(ws@ =~= head + desc_words(l.descs@, 0));
    let mut i: usize = 0;
    while i < l.descs.len()
        invariant
            i <= l.descs.len(),
            ws@ == head + desc_words(l.descs@, i as int),
        decreases l.descs.len() - i,
    {
        let d: FieldDesc = l.descs[i];
        ws.push(d.offset);
        ws.push(d.size);
        ws.push(
            if d.isptr {
                1
            } else {
                0
            },
        );
        i = i + 1;
        assert(ws@ =~= head + desc_words(l.descs@, i as int));
    }
    types::place_words(rt, ws)
}

/// Interns the field names.
fn intern_names(rt: &mut Runtime, fields: &Vec<(Vec<u8>, u32)>) -> (r: Vec<u32>)
    ensures
        (final(rt)@, r@) == old(rt)@.intern_names(fields_view(fields@), fields.len() as int),
{
    let mut r: Vec<u32> = Vec::new();
    let mut i: usize = 0;
    let ghost fs = fields_view(fields@);
    assert(r@ =~= Seq::<u32>::empty());
    while i < fields.len()
        invariant
            i <= fields.len(),
            fs == fields_view(fields@),
            (rt@, r@) == old(rt)@.intern_names(fs, i as int),
        decreases fields.len() - i,
    {
        let t: u32 = access::builtin(rt, id::SYMBOL);
        let name: &Vec<u8> = &fields[i].0;
        let sym: u32 = symbol::intern_bytes(rt, t, name.as_slice());
        r.push(sym);
        i = i + 1;
    }
    r
}

/// Defines a struct type.
pub fn define_struct(
    rt: &mut Runtime,
    name: &Vec<u8>,
    super_: u32,
    fields: &Vec<(Vec<u8>, u32)>,
    mutabl: bool,
) -> (r: u32)
    requires
        fields.len() < 0xffff_ffff,
    ensures
        (final(rt)@, r) == old(rt)@.define_struct(
            name@,
            super_,
            fields_view(fields@),
            mutabl,
        ),
{
    proof {
        reveal(State::define_struct);
    }
    let ghost fs = fields_view(fields@);
    let mut fts: Vec<u32> = Vec::new();
    let mut i: usize = 0;
    while i < fields.len()
        invariant
            i <= fields.len(),
            fts.len() == i,
            forall|k: int| 0 <= k < i ==> fts@[k] == fields@[k].1,
        decreases fields.len() - i,
    {
        fts.push(fields[i].1);
        i = i + 1;
    }
    assert(fts@ =~= fs.map_values(|f: (Seq<u8>, u32)| f.1));
    let mut roots: Vec<u32> = crate::gc::copy_words(&fts);
    roots.push(super_);
    rt.push_roots(&roots);
    let st: u32 = access::builtin(rt, id::SYMBOL);
    let sym: u32 = symbol::intern_bytes(rt, st, name.as_slice());
    let nt: u32 = access::builtin(rt, id::TYPENAME);
    let tn: u32 = types::make_typename(rt, nt, sym);
    rt.push_root(tn);
    rt.set_word(
        tn,
        12,
        if mutabl {
            1
        } else {
            0
        },
    );
    let l: Layout = compute_field_offsets(rt, &fts);
    let syms: Vec<u32> = intern_names(rt, fields);
    let names: u32 = types::svec_of(rt, &syms);
    rt.push_root(names);
    set_ref(rt, Value(tn), 8, Value(names));
    let types: u32 = types::svec_of(rt, &fts);
    rt.push_root(types);
    let layout: u32 = make_struct_layout(rt, &l);
    let dt: u32 = access::builtin(rt, id::DATATYPE);
    let t: u32 = alloc_object(rt, dt, DT_SIZE).0;
    types::write_dt(
        rt,
        t,
        DataType {
            name: tn,
            super_,
            parameters: NULL,
            types,
            instance: NULL,
            layout,
            size: l.size,
            nfields: fields.len() as u32,
            flags: 0,
        },
    );
    if fields.len() == 0 && !mutabl {
        rt.push_root(t);
        let inst: u32 = alloc_object(rt, t, 0).0;
        set_ref(rt, Value(t), 16, Value(inst));
        rt.pop_roots(5);
    } else {
        rt.pop_roots(fields.len());
        rt.pop_roots(4);
    }
    t
}

/// The registered struct type named by `name_sym`.
pub fn lookup_struct(rt: &Runtime, name_sym: u32) -> (r: Option<u32>)
    ensures
        r == rt@.lookup_struct(name_sym),
{
    let mut n: usize = rt.structs.len();
    while n > 0
        invariant
            n <= rt.structs.len(),
            rt@.lookup_struct(name_sym) == rt@.struct_named(name_sym, n as int),
        decreases n,
    {
        n = n - 1;
        if rt.structs[n].0 == name_sym {
            return Some(rt.structs[n].1);
        }
    }
    None
}

/// Whether the fields of `t` are the given ones.
fn same_fields(rt: &mut Runtime, t: u32, fields: &Vec<(Vec<u8>, u32)>) -> (r: bool)
    requires
        fields.len() < 0xffff_ffff,
    ensures
        (final(rt)@, r) == old(rt)@.same_fields(t, fields_view(fields@), 0),
{
    let mut i: usize = 0;
    let ghost fs = fields_view(fields@);
    while i < fields.len()
        invariant
            i <= fields.len() < 0xffff_ffff,
            fs == fields_view(fields@),
            old(rt)@.same_fields(t, fs, 0) == rt@.same_fields(t, fs, i as int),
        decreases fields.len() - i,
    {
        let st: u32 = access::builtin(rt, id::SYMBOL);
        let name: &Vec<u8> = &fields[i].0;
        let sym: u32 = symbol::intern_bytes(rt, st, name.as_slice());
        let names: u32 = access::field_names(rt, t);
        if access::svec_ref(rt, names, i as u32) != sym || access::field_type(rt, t, i as u32)
            != fields[i].1 {
            return false;
        }
        i = i + 1;
    }
    true
}

/// Defines a struct from source.
pub fn define_struct_from_source(
    rt: &mut Runtime,
    name: &Vec<u8>,
    fields: &Vec<(Vec<u8>, u32)>,
    mutabl: bool,
) -> (r: Result<u32, Vec<u8>>)
    requires
        fields.len() < 0xffff_ffff,
    ensures
        (final(rt)@, told(r)) == old(rt)@.define_struct_from_source(
            name@,
            fields_view(fields@),
            mutabl,
        ),
{
    proof {
        reveal(State::define_struct_from_source);
    }
    let st: u32 = access::builtin(rt, id::SYMBOL);
    let sym: u32 = symbol::intern_bytes(rt, st, name.as_slice());
    match lookup_struct(rt, sym) {
        Some(t) => {
            let shape: bool = access::is_mutable(rt, t) == mutabl && access::nfields_of(rt, t)
                as usize == fields.len();
            if shape && same_fields(rt, t, fields) {
                return Ok(t);
            }
            let mut m: Vec<u8> = text("invalid redefinition of constant ");
            push_bytes(&mut m, name.as_slice());
            Err(m)
        },
        None => {
            let any: u32 = access::builtin(rt, id::ANY);
            let t: u32 = define_struct(rt, name, any, fields, mutabl);
            rt.structs.push((sym, t));
            Ok(t)
        },
    }
}

/// The index of the field of `t` named by the symbol `name_sym`.
pub fn field_index(rt: &Runtime, t: u32, name_sym: u32) -> (r: Option<u32>)
    ensures
        r == rt@.field_index(t, name_sym),
{
    let names: u32 = access::field_names(rt, t);
    if names == NULL {
        return None;
    }
    let n: u32 = access::svec_len(rt, names);
    let mut i: u32 = 0;
    while i < n
        invariant
            i <= n,
            n == rt@.svec_len(names),
            names == rt@.field_names(t),
            names != NULL,
            rt@.name_position(names, name_sym, 0) == rt@.name_position(
                names,
                name_sym,
                i as int,
            ),
        decreases n - i,
    {
        if access::svec_ref(rt, names, i) == name_sym {
            return Some(i);
        }
        i = i + 1;
    }
    None
}

/// Whether `v` is an instance of `t`.
pub fn is_a(rt: &mut Runtime, v: Value, t: u32) -> (r: bool)
    ensures
        (final(rt)@, r) == old(rt)@.is_a(v.0, t),
{
    let vt: u32 = type_of(rt, v);
    issubtype(rt, vt, t)
}

/// The first value that is not an instance of its field's type.
fn misfit(rt: &mut Runtime, t: u32, args: &Vec<Value>) -> (r: Option<usize>)
    requires
        args.len() <= 0xffff_ffff,
    ensures
        match r {
            Some(i) => (final(rt)@, Some(i as int)) == old(rt)@.misfit(t, args@, 0) && i
                < args.len(),
            None => (final(rt)@, None::<int>) == old(rt)@.misfit(t, args@, 0),
        },
{
    let mut i: usize = 0;
    while i < args.len()
        invariant
            i <= args.len() <= 0xffff_ffff,
            old(rt)@.misfit(t, args@, 0) == rt@.misfit(t, args@, i as int),
        decreases args.len() - i,
    {
        let ft: u32 = access::field_type(rt, t, i as u32);
        if !is_a(rt, args[i], ft) {
            return Some(i);
        }
        i = i + 1;
    }
    None
}

/// Copies `n` bytes from `src` to `dst`.
pub(crate) fn copy_payload(rt: &mut Runtime, dst: u32, at: u64, src: u32, from: u64, n: u64)
    requires
        at + n <= u64::MAX,
        from + n <= u64::MAX,
    ensures
        final(rt)@ == old(rt)@.copy_payload(dst, at as int, src, from as int, n as int, 0),
{
    let mut k: u64 = 0;
    while k < n
        invariant
            k <= n,
            at + n <= u64::MAX,
            from + n <= u64::MAX,
            old(rt)@.copy_payload(dst, at as int, src, from as int, n as int, 0)
                == rt@.copy_payload(dst, at as int, src, from as int, n as int, k as int),
        decreases n - k,
    {
        let b: u8 = rt.byte(src, from + k);
        rt.set_byte(dst, at + k, b);
        k = k + 1;
    }
}

/// Stores `rhs` in field `i` of the instance `v` of `t`.
fn set_field_raw(rt: &mut Runtime, v: Value, t: u32, i: u32, rhs: Value)
    ensures
        final(rt)@ == old(rt)@.set_field_raw(v.0, t, i as int, rhs.0),
{
    let (offs, fsz, isptr): (u32, u32, bool) = access::field_desc(rt, t, i);
    if isptr {
        set_ref(rt, v, offs, rhs);
    } else {
        copy_payload(rt, v.0, offs as u64, rhs.0, 0, fsz as u64);
    }
}

/// The offsets of a list of values.
pub(crate) fn raw_list(args: &Vec<Value>) -> (r: Vec<u32>)
    ensures
        r@ == args@.map_values(|v: Value| v.0),
{
    let mut r: Vec<u32> = Vec::new();
    let mut i: usize = 0;
    while i < args.len()
        invariant
            i <= args.len(),
            r.len() == i,
            forall|k: int| 0 <= k < i ==> r@[k] == args@[k].0,
        decreases args.len() - i,
    {
        r.push(args[i].0);
        i = i + 1;
    }
    assert(r@ =~= args@.map_values(|v: Value| v.0));
    r
}

/// Makes an instance of the struct type `t`.
pub fn new_struct(rt: &mut Runtime, t: u32, args: &Vec<Value>) -> (r: Result<Value, Vec<u8>>)
    ensures
        (final(rt)@, told(r)) == old(rt)@.new_struct(t, args@),
{
    proof {
        reveal(State::new_struct);
    }
    if !access::is_datatype(rt, t) || access::is_abstract(rt, t) {
        return Err(text("new: not a concrete struct type"));
    }
    let nf: u32 = access::nfields_of(rt, t);
    if args.len() != nf as usize {
        let mut m: Vec<u8> = text("invalid struct allocation: ");
        let d1: Vec<u8> = decimal_text(args.len() as u64);
        push_bytes(&mut m, d1.as_slice());
        push_text(&mut m, " of ");
        let d2: Vec<u8> = decimal_text(nf as u64);
        push_bytes(&mut m, d2.as_slice());
        push_text(&mut m, " fields");
        return Err(m);
    }
    let roots: Vec<u32> = raw_list(args);
    rt.push_roots(&roots);
    match misfit(rt, t, args) {
        Some(i) => {
            rt.pop_roots(args.len());
            let mut m: Vec<u8> = text("TypeError: new: expected field ");
            let d: Vec<u8> = decimal_text(i as u64 + 1);
            push_bytes(&mut m, d.as_slice());
            push_text(&mut m, " to match its declared type");
            return Err(m);
        },
        None => (),
    }
    let inst: u32 = access::instance_of(rt, t);
    if inst != NULL {
        rt.pop_roots(args.len());
        return Ok(Value(inst));
    }
    let size: u32 = access::size_of(rt, t);
    let v: Value = alloc_object(rt, t, size);
    if v.is_null() {
        rt.pop_roots(args.len());
        return Err(text("out of memory"));
    }
    let ghost s1 = rt@;
    let mut i: usize = 0;
    while i < args.len()
        invariant
            i <= args.len() <= 0xffff_ffff,
            s1.set_fields(v.0, t, args@, 0) == rt@.set_fields(v.0, t, args@, i as int),
        decreases args.len() - i,
    {
        set_field_raw(rt, v, t, i as u32, args[i]);
        i = i + 1;
    }
    rt.pop_roots(args.len());
    Ok(v)
}

/// The message for an index past the last field.
fn field_bounds(i: u32) -> (r: Vec<u8>)
    ensures
        r@ == field_bounds_text(i),
{
    let mut m: Vec<u8> = text("BoundsError: field index ");
    let d: Vec<u8> = decimal_text(i as u64 + 1);
    push_bytes(&mut m, d.as_slice());
    m
}

/// Reads field `i` of `v`.
pub fn get_nth_field(rt: &mut Runtime, v: Value, i: u32) -> (r: Result<Value, Vec<u8>>)
    ensures
        (final(rt)@, told(r)) == old(rt)@.get_nth_field(v.0, i),
{
    proof {
        reveal(State::get_nth_field);
    }
    let t: u32 = type_of(rt, v);
    if i >= access::nfields_of(rt, t) {
        return Err(field_bounds(i));
    }
    let (offs, fsz, isptr): (u32, u32, bool) = access::field_desc(rt, t, i);
    if isptr {
        return Ok(get_ref(rt, v, offs));
    }
    let ft: u32 = access::field_type(rt, t, i);
    let inst: u32 = access::instance_of(rt, ft);
    if inst != NULL {
        return Ok(Value(inst));
    }
    rt.push_root(v.0);
    let b: Value = alloc_object(rt, ft, fsz);
    rt.pop_roots(1);
    if b.is_null() {
        return Err(text("out of memory"));
    }
    copy_payload(rt, b.0, 0, v.0, offs as u64, fsz as u64);
    Ok(b)
}

/// Assigns field `i` of the mutable struct `v`.
pub fn set_nth_field(rt: &mut Runtime, v: Value, i: u32, rhs: Value) -> (r: Result<(), Vec<u8>>)
    ensures
        (final(rt)@, told(r)) == old(rt)@.set_nth_field(v.0, i, rhs.0),
{
    proof {
        reveal(State::set_nth_field);
    }
    let t: u32 = type_of(rt, v);
    if !access::is_mutable(rt, t) {
        let mut m: Vec<u8> = text("setfield!: immutable struct of type ");
        let name: Vec<u8> = symbol::as_str(rt, access::type_sym(rt, t));
        push_bytes(&mut m, name.as_slice());
        push_text(&mut m, " cannot be changed");
        return Err(m);
    }
    if i >= access::nfields_of(rt, t) {
        return Err(field_bounds(i));
    }
    let ft: u32 = access::field_type(rt, t, i);
    let roots: Vec<u32> = vec![v.0, rhs.0];
    assert(roots@ =~= seq![v.0, rhs.0]);
    rt.push_roots(&roots);
    let ok: bool = is_a(rt, rhs, ft);
    rt.pop_roots(2);
    if !ok {
        return Err(text("TypeError: setfield!: value does not match the field type"));
    }
    set_field_raw(rt, v, t, i, rhs);
    Ok(())
}

/// The registered struct types.
pub fn each_registered_struct(rt: &Runtime) -> (r: Vec<u32>)
    ensures
        r@ == rt@.structs.map_values(|p: (u32, u32)| p.1),
{
    let mut r: Vec<u32> = Vec::new();
    let mut i: usize = 0;
    while i < rt.structs.len()
        invariant
            i <= rt.structs.len(),
            r.len() == i,
            forall|k: int| 0 <= k < i ==> r@[k] == rt@.structs[k].1,
        decreases rt.structs.len() - i,
    {
        r.push(rt.structs[i].1);
        i = i + 1;
    }
    assert(r@ =~= rt@.structs.map_values(|p: (u32, u32)| p.1));
    r
}

/// Rounding up gives a multiple of the alignment, not below and less than one
/// alignment above.
proof fn lemma_round_up(n: int, al: int)
    requires
        0 <= n,
        0 < al,
    ensures
        round_up(n, al) % al == 0,
        n <= round_up(n, al) < n + al,
{
    let q = (n + al - 1) / al;
    vstd::arithmetic::div_mod::lemma_fundamental_div_mod(n + al - 1, al);
    assert(al * q == q * al) by (nonlinear_arith);
    vstd::arithmetic::div_mod::lemma_mod_multiples_basic(q, al);
    vstd::arithmetic::div_mod::lemma_mod_bound(n + al - 1, al);
}

/// Alignments are at least one and at most eight.
proof fn lemma_alignment(s: State, t: u32, fuel: nat)
    ensures
        1 <= s.type_alignment(t, fuel) <= 8,
    decreases fuel, 1nat, 0int,
{
    if fuel > 0 && !s.is_primitive(t) {
        lemma_fields_alignment(s, t, s.nfields_of(t) as int, fuel);
    }
}

proof fn lemma_fields_alignment(s: State, t: u32, n: int, fuel: nat)
    requires
        fuel > 0,
    ensures
        1 <= s.fields_alignment(t, n, fuel) <= 8,
    decreases fuel, 0nat, n,
{
    if n > 0 {
        lemma_fields_alignment(s, t, n - 1, fuel);
        lemma_alignment(s, s.field_type(t, n - 1), (fuel - 1) as nat);
    }
}

impl State {
    /// Whether a field of type `t` is described by `d`: it is a reference of four bytes,
    /// or has the size of the type and starts at a multiple of the type's alignment,
    /// which for a primitive of at most eight bytes is its size.
    pub open spec fn fits_field(self, d: FieldDesc, t: u32) -> bool {
        &&& d.isptr <==> !self.is_inline_field(t)
        &&& d.size == if d.isptr {
            4
        } else {
            self.size_of(t)
        }
        &&& !d.isptr && self.is_primitive(t) && 1 <= self.size_of(t) <= 8 ==> d.offset
            % self.size_of(t) == 0
        &&& !d.isptr ==> d.offset % self.type_alignment(t, MAX_NESTING as nat) == 0
    }
}

/// Fields of a struct whose size fits do not overlap: each starts at a multiple of
/// its alignment, ends before the next one starts, and lies within the struct.
pub proof fn law_fields_are_disjoint(s: State, fts: Seq<u32>, i: int, j: int)
    requires
        0 <= i < j < fts.len(),
        s.field_layout(fts).size < 0xffff_ffff,
    ensures
        ({
            let d = s.field_layout(fts).descs;
            &&& d.len() == fts.len()
            &&& d[i].offset + d[i].size <= d[j].offset
            &&& d[j].offset + d[j].size <= s.field_layout(fts).size
            &&& d[j].isptr ==> d[j].offset % 4 == 0
            &&& d[i].isptr ==> d[i].offset % 4 == 0
            &&& s.fits_field(d[i], fts[i])
            &&& s.fits_field(d[j], fts[j])
        }),
{
    let n = fts.len() as int;
    let l = s.place_fields(fts, n);
    lemma_place_fields(s, fts, n);
    lemma_round_up(l.size as int, l.align as int);
    assert(l.size < 0xffff_ffff);
    lemma_placed(s, fts, n, i);
    lemma_placed(s, fts, n, j);
    lemma_order(s, fts, n, i, j);
}

/// The running alignment is between one and eight, and there is one descriptor per
/// field.
proof fn lemma_place_fields(s: State, fts: Seq<u32>, n: int)
    requires
        0 <= n <= fts.len(),
    ensures
        s.place_fields(fts, n).descs.len() == n,
        1 <= s.place_fields(fts, n).align <= 8,
    decreases n,
{
    if n > 0 {
        lemma_place_fields(s, fts, n - 1);
        lemma_alignment(s, fts[n - 1], MAX_NESTING as nat);
    }
}

/// A placed field lies within what is laid out so far; a reference is aligned.
proof fn lemma_placed(s: State, fts: Seq<u32>, n: int, i: int)
    requires
        0 <= i < n <= fts.len(),
        s.place_fields(fts, n).size < 0xffff_ffff,
    ensures
        s.place_fields(fts, n).descs.len() == n,
        s.place_fields(fts, n).descs[i].offset + s.place_fields(fts, n).descs[i].size
            <= s.place_fields(fts, n).size,
        s.place_fields(fts, n).descs[i].isptr ==> s.place_fields(fts, n).descs[i].offset % 4 == 0,
        s.fits_field(s.place_fields(fts, n).descs[i], fts[i]),
    decreases n,
{
    lemma_place_fields(s, fts, n);
    lemma_place_fields(s, fts, n - 1);
    lemma_alignment(s, fts[n - 1], MAX_NESTING as nat);
    let l = s.place_fields(fts, n - 1);
    lemma_round_up(l.size as int, s.type_alignment(fts[n - 1], MAX_NESTING as nat) as int);
    lemma_round_up(l.size as int, 4);
    if i < n - 1 {
        lemma_placed(s, fts, n - 1, i);
    }
}

/// An earlier field ends before a later one starts.
proof fn lemma_order(s: State, fts: Seq<u32>, n: int, i: int, j: int)
    requires
        0 <= i < j < n <= fts.len(),
        s.place_fields(fts, n).size < 0xffff_ffff,
    ensures
        s.place_fields(fts, n).descs.len() == n,
        s.place_fields(fts, n).descs[i].offset + s.place_fields(fts, n).descs[i].size
            <= s.place_fields(fts, n).descs[j].offset,
    decreases n,
{
    lemma_place_fields(s, fts, n);
    lemma_place_fields(s, fts, n - 1);
    lemma_alignment(s, fts[n - 1], MAX_NESTING as nat);
    let l = s.place_fields(fts, n - 1);
    lemma_round_up(l.size as int, s.type_alignment(fts[n - 1], MAX_NESTING as nat) as int);
    lemma_round_up(l.size as int, 4);
    if j < n - 1 {
        lemma_order(s, fts, n - 1, i, j);
    } else {
        lemma_placed(s, fts, n - 1, i);
    }
}

/// A value stored in a reference field is read back, where the instance is not its
/// own type.
pub proof fn law_get_field_after_set(s: State, v: u32, i: u32, rhs: u32)
    requires
        i < s.nfields_of(s.tag(v)),
        s.field_isptr(s.tag(v), i as int),
        s.field_offset(s.tag(v), i as int) + 4 <= s.data(v).len(),
        s.tag(v) / 8 != v / 8,
    ensures
        ({
            let s1 = s.set_field_raw(v, s.tag(v), i as int, rhs);
            s1.get_nth_field(v, i) == (s1, Ok::<Value, Seq<u8>>(Value(rhs)))
        }),
{
    reveal(State::get_nth_field);
    let t = s.tag(v);
    let off = s.field_offset(t, i as int) as int;
    crate::object::law_get_ref_after_set_ref(s, v, off, rhs);
    let s1 = s.set_field_raw(v, t, i as int, rhs);
    lemma_other_block(s, v, off, rhs, t);
    assert(s1.tag(v) == t);
}

/// Storing a reference leaves the payloads of other blocks.
proof fn lemma_other_block(s: State, v: u32, i: int, r: u32, w: u32)
    requires
        w / 8 != v / 8,
    ensures
        s.set_ref(v, i, r).data(w) == s.data(w),
{
}

} // verus!
