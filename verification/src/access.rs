//! Reading the fields of type objects.
//!
//! A data type's payload is nine words: its name object, supertype, parameter
//! vector, field-type vector, singleton instance, layout, instance size, field
//! count and flags. A layout is the count of embedded references, their byte
//! offsets, and three words per field: offset, size, and whether it is a
//! reference.

use vstd::prelude::*;
use crate::id;
use crate::region::NULL;
use crate::state::{Builtins, Runtime, State};

verus! {

/// Set if a type has no direct instances.
pub const FLAG_ABSTRACT: u32 = 1;

/// Set if a type was declared as a primitive type.
pub const FLAG_PRIMITIVE: u32 = 2;

/// The depth up to which types are compared and walked. A type that nests so deep does
/// not fit in the region.
pub const MAX_NESTING: u32 = 0x100_0000;

impl State {
    /// The core type with identifier `i`; the null reference before bootstrap.
    pub open spec fn builtin(self, i: u32) -> u32 {
        match self.builtins {
            Some(b) => if i < b.types.len() {
                b.types[i as int]
            } else {
                NULL
            },
            None => NULL,
        }
    }

    pub open spec fn name_of(self, t: u32) -> u32 {
        self.word(t, 0)
    }

    pub open spec fn supertype(self, t: u32) -> u32 {
        self.word(t, 4)
    }

    pub open spec fn parameters(self, t: u32) -> u32 {
        self.word(t, 8)
    }

    pub open spec fn field_types(self, t: u32) -> u32 {
        self.word(t, 12)
    }

    pub open spec fn instance_of(self, t: u32) -> u32 {
        self.word(t, 16)
    }

    pub open spec fn layout(self, t: u32) -> u32 {
        self.word(t, 20)
    }

    pub open spec fn size_of(self, t: u32) -> u32 {
        self.word(t, 24)
    }

    pub open spec fn nfields_of(self, t: u32) -> u32 {
        self.word(t, 28)
    }

    pub open spec fn flags(self, t: u32) -> u32 {
        self.word(t, 32)
    }

    pub open spec fn is_abstract(self, t: u32) -> bool {
        self.flags(t) % 2 == 1
    }

    pub open spec fn is_primitive(self, t: u32) -> bool {
        (self.flags(t) / 2) % 2 == 1
    }

    pub open spec fn is_datatype(self, t: u32) -> bool {
        self.tag(t) == self.builtin(id::DATATYPE)
    }

    pub open spec fn is_union(self, t: u32) -> bool {
        self.tag(t) == self.builtin(id::UNION)
    }

    pub open spec fn is_unionall(self, t: u32) -> bool {
        self.tag(t) == self.builtin(id::UNIONALL)
    }

    pub open spec fn is_typevar(self, t: u32) -> bool {
        self.tag(t) == self.builtin(id::TVAR)
    }

    pub open spec fn is_vararg(self, t: u32) -> bool {
        self.tag(t) == self.builtin(id::VARARG)
    }

    pub open spec fn is_intersect(self, t: u32) -> bool {
        self.tag(t) == self.builtin(id::INTERSECT)
    }

    /// Whether `t` is a boxed `Int64`, as a type parameter holds one.
    pub open spec fn is_boxed_long(self, t: u32) -> bool {
        self.tag(t) == self.builtin(id::INT64)
    }

    pub open spec fn is_svec(self, t: u32) -> bool {
        t == self.builtin(id::SVEC)
    }

    pub open spec fn svec_len(self, v: u32) -> u32 {
        self.word(v, 0)
    }

    pub open spec fn svec_ref(self, v: u32, i: int) -> u32 {
        self.word(v, 4 + 4 * i)
    }

    /// The elements of the simple vector at `v`; none where `v` is null.
    pub open spec fn svec_seq(self, v: u32) -> Seq<u32> {
        if v == NULL {
            Seq::empty()
        } else {
            Seq::new(self.svec_len(v) as nat, |i: int| self.svec_ref(v, i))
        }
    }

    pub open spec fn union_a(self, t: u32) -> u32 {
        self.word(t, 0)
    }

    pub open spec fn union_b(self, t: u32) -> u32 {
        self.word(t, 4)
    }

    pub open spec fn tvar_name(self, t: u32) -> u32 {
        self.word(t, 0)
    }

    pub open spec fn tvar_lb(self, t: u32) -> u32 {
        self.word(t, 4)
    }

    pub open spec fn tvar_ub(self, t: u32) -> u32 {
        self.word(t, 8)
    }

    pub open spec fn unionall_var(self, t: u32) -> u32 {
        self.word(t, 0)
    }

    pub open spec fn unionall_body(self, t: u32) -> u32 {
        self.word(t, 4)
    }

    pub open spec fn vararg_elem(self, t: u32) -> u32 {
        self.word(t, 0)
    }

    pub open spec fn vararg_num(self, t: u32) -> u32 {
        self.word(t, 4)
    }

    /// Number of references embedded in an instance of `t`.
    pub open spec fn layout_npointers(self, t: u32) -> u32 {
        if self.layout(t) == NULL {
            0
        } else {
            self.layout_word(self.layout(t), 0)
        }
    }

    /// Byte offset of the `i`-th embedded reference of an instance of `t`.
    pub open spec fn layout_ptr_offset(self, t: u32, i: int) -> u32 {
        self.layout_word(self.layout(t), 1 + i)
    }

    /// Descriptor word `k` of field `i` of `t`: offset, size, or reference flag.
    pub open spec fn field_desc(self, t: u32, i: int, k: int) -> u32 {
        self.layout_word(self.layout(t), 1 + self.layout_npointers(t) + 3 * i + k)
    }

    pub open spec fn field_offset(self, t: u32, i: int) -> u32 {
        self.field_desc(t, i, 0)
    }

    pub open spec fn field_size(self, t: u32, i: int) -> u32 {
        self.field_desc(t, i, 1)
    }

    pub open spec fn field_isptr(self, t: u32, i: int) -> bool {
        self.field_desc(t, i, 2) != 0
    }

    /// The declared type of field `i` of `t`.
    pub open spec fn field_type(self, t: u32, i: int) -> u32 {
        self.svec_ref(self.field_types(t), i)
    }

    /// The field-name symbols of `t`, as a simple vector.
    pub open spec fn field_names(self, t: u32) -> u32 {
        self.word(self.name_of(t), 8)
    }

    /// Whether `t` was declared mutable.
    pub open spec fn is_mutable(self, t: u32) -> bool {
        self.word(self.name_of(t), 12) != 0
    }

    /// The symbol of a name object.
    pub open spec fn typename_sym(self, tn: u32) -> u32 {
        self.word(tn, 0)
    }

    /// The symbol naming a type.
    pub open spec fn type_sym(self, t: u32) -> u32 {
        self.typename_sym(self.name_of(t))
    }

    /// The name shared by tuple types; the null reference before bootstrap.
    pub open spec fn tuple_name(self) -> u32 {
        match self.builtins {
            Some(b) => b.tuple_typename,
            None => NULL,
        }
    }

    pub open spec fn is_tuple(self, t: u32) -> bool {
        self.name_of(t) == self.tuple_name()
    }

    /// Whether `t` is a data type whose instances are plain bits: a concrete
    /// primitive, or a tuple of such element types.
    pub open spec fn is_bits(self, t: u32, fuel: nat) -> bool
        decreases fuel,
    {
        if fuel == 0 || !self.is_datatype(t) || self.is_abstract(t) {
            false
        } else if self.is_primitive(t) {
            true
        } else if self.is_tuple(t) {
            &&& self.parameters(t) != NULL
            &&& forall|i: int|
                #![trigger self.svec_ref(self.parameters(t), i)]
                0 <= i < self.svec_len(self.parameters(t)) ==> self.is_bits(
                    self.svec_ref(self.parameters(t), i),
                    (fuel - 1) as nat,
                )
        } else {
            false
        }
    }

    /// Whether `t` is a `GenericMemory{T}` type.
    pub open spec fn is_memory_type(self, t: u32) -> bool {
        match self.builtins {
            Some(b) => self.is_datatype(t) && self.name_of(t) == b.memory_typename,
            None => false,
        }
    }

    /// The byte size of an inline element of type `elem`, or `None` where elements
    /// are stored as references or take no space.
    pub open spec fn inline_size(self, elem: u32) -> Option<u32> {
        if self.is_bits(elem, MAX_NESTING as nat) && self.size_of(elem) > 0 {
            Some(self.size_of(elem))
        } else {
            None
        }
    }

    /// Whether `elem` is a zero-size singleton type.
    pub open spec fn is_zero_size(self, elem: u32) -> bool {
        self.is_datatype(elem) && self.size_of(elem) == 0 && self.instance_of(elem) != NULL
    }

    /// Whether a buffer of element type `elem` holds references.
    pub open spec fn elem_boxed(self, elem: u32) -> bool {
        self.inline_size(elem) is None && !self.is_zero_size(elem)
    }
}

/// The core types. They exist once the runtime was initialised.
pub fn builtins(rt: &Runtime) -> (r: &Builtins)
    requires
        rt@.builtins is Some,
    ensures
        rt@.builtins == Some(r@),
{
    rt.builtins.as_ref().unwrap()
}

/// Whether the core types exist.
pub fn is_bootstrapped(rt: &Runtime) -> (r: bool)
    ensures
        r == (rt@.builtins is Some),
{
    rt.builtins.is_some()
}

/// The core type with the given identifier.
pub fn builtin(rt: &Runtime, type_id: u32) -> (r: u32)
    ensures
        r == rt@.builtin(type_id),
{
    match &rt.builtins {
        Some(b) => {
            if (type_id as usize) < b.types.len() {
                b.types[type_id as usize]
            } else {
                NULL
            }
        },
        None => NULL,
    }
}

/// A data type's name object.
pub fn name_of(rt: &Runtime, t: u32) -> (r: u32)
    ensures
        r == rt@.name_of(t),
{
    rt.word(t, 0)
}

/// A data type's supertype; the top type is its own.
pub fn supertype(rt: &Runtime, t: u32) -> (r: u32)
    ensures
        r == rt@.supertype(t),
{
    rt.word(t, 4)
}

/// A data type's parameter vector, or null.
pub fn parameters_of(rt: &Runtime, t: u32) -> (r: u32)
    ensures
        r == rt@.parameters(t),
{
    rt.word(t, 8)
}

/// The singleton instance of `t`, or null.
pub fn instance_of(rt: &Runtime, t: u32) -> (r: u32)
    ensures
        r == rt@.instance_of(t),
{
    rt.word(t, 16)
}

/// Whether `t` is a data type with a singleton instance.
pub fn is_datatype_singleton(rt: &Runtime, t: u32) -> (r: bool)
    ensures
        r == (rt@.is_datatype(t) && rt@.instance_of(t) != NULL),
{
    is_datatype(rt, t) && instance_of(rt, t) != NULL
}

/// A data type's instance size.
pub fn size_of(rt: &Runtime, t: u32) -> (r: u32)
    ensures
        r == rt@.size_of(t),
{
    rt.word(t, 24)
}

/// Number of declared fields of `t`.
pub fn nfields_of(rt: &Runtime, t: u32) -> (r: u32)
    ensures
        r == rt@.nfields_of(t),
{
    rt.word(t, 28)
}

/// Whether the data type `t` is abstract.
pub fn is_abstract(rt: &Runtime, t: u32) -> (r: bool)
    ensures
        r == rt@.is_abstract(t),
{
    rt.word(t, 32) % 2 == 1
}

/// Whether the data type `t` was declared primitive.
pub fn is_primitive(rt: &Runtime, t: u32) -> (r: bool)
    ensures
        r == rt@.is_primitive(t),
{
    (rt.word(t, 32) / 2) % 2 == 1
}

/// The type tag of the block at `v`.
pub fn tag_of(rt: &Runtime, v: u32) -> (r: u32)
    ensures
        r == rt@.tag(v),
{
    match rt.obj(v) {
        Some(o) => o.tag,
        None => 0,
    }
}

/// Whether `t` is a data type, as opposed to a union, a variable or a `where` type.
pub fn is_datatype(rt: &Runtime, t: u32) -> (r: bool)
    ensures
        r == rt@.is_datatype(t),
{
    tag_of(rt, t) == builtin(rt, id::DATATYPE)
}

/// Whether `t` is a union object.
pub fn is_union(rt: &Runtime, t: u32) -> (r: bool)
    ensures
        r == rt@.is_union(t),
{
    tag_of(rt, t) == builtin(rt, id::UNION)
}

/// Whether `t` is a `where` type.
pub fn is_unionall(rt: &Runtime, t: u32) -> (r: bool)
    ensures
        r == rt@.is_unionall(t),
{
    tag_of(rt, t) == builtin(rt, id::UNIONALL)
}

/// Whether `t` is a type variable.
pub fn is_typevar(rt: &Runtime, t: u32) -> (r: bool)
    ensures
        r == rt@.is_typevar(t),
{
    tag_of(rt, t) == builtin(rt, id::TVAR)
}

/// Whether `t` is the open tail of a tuple type.
pub fn is_vararg(rt: &Runtime, t: u32) -> (r: bool)
    ensures
        r == rt@.is_vararg(t),
{
    tag_of(rt, t) == builtin(rt, id::VARARG)
}

/// Whether `t` is an internal meet node.
pub fn is_intersect(rt: &Runtime, t: u32) -> (r: bool)
    ensures
        r == rt@.is_intersect(t),
{
    tag_of(rt, t) == builtin(rt, id::INTERSECT)
}

/// Whether `t` is a boxed `Int64`.
pub fn is_boxed_long(rt: &Runtime, t: u32) -> (r: bool)
    ensures
        r == rt@.is_boxed_long(t),
{
    tag_of(rt, t) == builtin(rt, id::INT64)
}

/// Whether `t` is the simple-vector type.
pub fn is_svec(rt: &Runtime, t: u32) -> (r: bool)
    ensures
        r == rt@.is_svec(t),
{
    t == builtin(rt, id::SVEC)
}

/// Length of the simple vector at `v`.
pub fn svec_len(rt: &Runtime, v: u32) -> (r: u32)
    ensures
        r == rt@.svec_len(v),
{
    rt.word(v, 0)
}

/// The `i`-th element of the simple vector at `v`.
pub fn svec_ref(rt: &Runtime, v: u32, i: u32) -> (r: u32)
    ensures
        r == rt@.svec_ref(v, i as int),
{
    rt.word(v, 4 + 4 * (i as u64))
}

/// The elements of the simple vector at `v`; none where `v` is null.
pub fn svec_vec(rt: &Runtime, v: u32) -> (r: Vec<u32>)
    ensures
        r@ == rt@.svec_seq(v),
{
    let mut r: Vec<u32> = Vec::new();
    if v == NULL {
        assert(r@ =~= rt@.svec_seq(v));
        return r;
    }
    let n: u32 = svec_len(rt, v);
    let mut i: u32 = 0;
    while i < n
        invariant
            i <= n,
            n == rt@.svec_len(v),
            r.len() == i,
            forall|k: int| 0 <= k < i ==> r@[k] == rt@.svec_ref(v, k),
        decreases n - i,
    {
        r.push(svec_ref(rt, v, i));
        i = i + 1;
    }
    assert(r@ =~= rt@.svec_seq(v));
    r
}

/// The first component of a union.
pub fn union_a(rt: &Runtime, t: u32) -> (r: u32)
    ensures
        r == rt@.union_a(t),
{
    rt.word(t, 0)
}

/// The second component of a union.
pub fn union_b(rt: &Runtime, t: u32) -> (r: u32)
    ensures
        r == rt@.union_b(t),
{
    rt.word(t, 4)
}

/// A type variable's name symbol.
pub fn tvar_name(rt: &Runtime, v: u32) -> (r: u32)
    ensures
        r == rt@.tvar_name(v),
{
    rt.word(v, 0)
}

/// A type variable's declared lower bound.
pub fn tvar_lb(rt: &Runtime, v: u32) -> (r: u32)
    ensures
        r == rt@.tvar_lb(v),
{
    rt.word(v, 4)
}

/// A type variable's declared upper bound.
pub fn tvar_ub(rt: &Runtime, v: u32) -> (r: u32)
    ensures
        r == rt@.tvar_ub(v),
{
    rt.word(v, 8)
}

/// A `where` type's bound variable.
pub fn unionall_var(rt: &Runtime, u: u32) -> (r: u32)
    ensures
        r == rt@.unionall_var(u),
{
    rt.word(u, 0)
}

/// A `where` type's body.
pub fn unionall_body(rt: &Runtime, u: u32) -> (r: u32)
    ensures
        r == rt@.unionall_body(u),
{
    rt.word(u, 4)
}

/// The element type of an open tuple tail.
pub fn vararg_elem(rt: &Runtime, t: u32) -> (r: u32)
    ensures
        r == rt@.vararg_elem(t),
{
    rt.word(t, 0)
}

/// The length of a tuple tail: null when unbounded, a boxed integer, or a variable.
pub fn vararg_num(rt: &Runtime, t: u32) -> (r: u32)
    ensures
        r == rt@.vararg_num(t),
{
    rt.word(t, 4)
}

/// The layout of `t`, or null.
pub fn layout_of(rt: &Runtime, t: u32) -> (r: u32)
    ensures
        r == rt@.layout(t),
{
    rt.word(t, 20)
}

/// Number of references embedded in an instance of `t`.
pub fn layout_npointers(rt: &Runtime, t: u32) -> (r: u32)
    ensures
        r == rt@.layout_npointers(t),
{
    let l: u32 = rt.word(t, 20);
    if l == NULL {
        0
    } else {
        rt.layout_word(l, 0)
    }
}

/// Byte offset of the `i`-th embedded reference of an instance of `t`.
pub fn layout_ptr_offset(rt: &Runtime, t: u32, i: u32) -> (r: u32)
    ensures
        r == rt@.layout_ptr_offset(t, i as int),
{
    let l: u32 = rt.word(t, 20);
    rt.layout_word(l, 1 + i as u64)
}

/// Reads the offset, the size and the reference flag of field `i`.
pub fn field_desc(rt: &Runtime, t: u32, i: u32) -> (r: (u32, u32, bool))
    ensures
        r.0 == rt@.field_offset(t, i as int),
        r.1 == rt@.field_size(t, i as int),
        r.2 == rt@.field_isptr(t, i as int),
{
    let l: u32 = rt.word(t, 20);
    let base: u64 = 1 + layout_npointers(rt, t) as u64 + 3 * (i as u64);
    (rt.layout_word(l, base), rt.layout_word(l, base + 1), rt.layout_word(l, base + 2) != 0)
}

/// Byte offset of field `i`.
pub fn field_offset(rt: &Runtime, t: u32, i: u32) -> (r: u32)
    ensures
        r == rt@.field_offset(t, i as int),
{
    field_desc(rt, t, i).0
}

/// Whether field `i` is a reference.
pub fn field_isptr(rt: &Runtime, t: u32, i: u32) -> (r: bool)
    ensures
        r == rt@.field_isptr(t, i as int),
{
    field_desc(rt, t, i).2
}

/// The declared type of field `i`.
pub fn field_type(rt: &Runtime, t: u32, i: u32) -> (r: u32)
    ensures
        r == rt@.field_type(t, i as int),
{
    svec_ref(rt, rt.word(t, 12), i)
}

/// The field-name symbols of `t`, as a simple vector, or null.
pub fn field_names(rt: &Runtime, t: u32) -> (r: u32)
    ensures
        r == rt@.field_names(t),
{
    rt.word(name_of(rt, t), 8)
}

/// Whether `t` was declared mutable.
pub fn is_mutable(rt: &Runtime, t: u32) -> (r: bool)
    ensures
        r == rt@.is_mutable(t),
{
    rt.word(name_of(rt, t), 12) != 0
}

/// The symbol of a name object.
pub fn typename_sym(rt: &Runtime, tn: u32) -> (r: u32)
    ensures
        r == rt@.typename_sym(tn),
{
    rt.word(tn, 0)
}

/// The symbol naming a type.
pub fn type_sym(rt: &Runtime, t: u32) -> (r: u32)
    ensures
        r == rt@.type_sym(t),
{
    typename_sym(rt, name_of(rt, t))
}

/// Whether `t` is a tuple type: tuple types share one name object.
pub fn is_tuple(rt: &Runtime, t: u32) -> (r: bool)
    ensures
        r == rt@.is_tuple(t),
{
    match &rt.builtins {
        Some(b) => name_of(rt, t) == b.tuple_typename,
        None => name_of(rt, t) == NULL,
    }
}

/// Whether instances of `t` are plain bits.
pub fn is_bits(rt: &Runtime, t: u32, fuel: u32) -> (r: bool)
    ensures
        r == rt@.is_bits(t, fuel as nat),
    decreases fuel,
{
    if fuel == 0 || !is_datatype(rt, t) || is_abstract(rt, t) {
        return false;
    }
    if is_primitive(rt, t) {
        return true;
    }
    if !is_tuple(rt, t) {
        return false;
    }
    let p: u32 = parameters_of(rt, t);
    if p == NULL {
        return false;
    }
    let n: u32 = svec_len(rt, p);
    let mut i: u32 = 0;
    while i < n
        invariant
            i <= n,
            fuel > 0,
            n == rt@.svec_len(p),
            p == rt@.parameters(t),
            p != NULL,
            rt@.is_datatype(t),
            !rt@.is_abstract(t),
            !rt@.is_primitive(t),
            rt@.is_tuple(t),
            forall|k: int| 0 <= k < i ==> rt@.is_bits(rt@.svec_ref(p, k), (fuel - 1) as nat),
        decreases n - i,
    {
        if !is_bits(rt, svec_ref(rt, p, i), fuel - 1) {
            return false;
        }
        i = i + 1;
    }
    true
}

/// Whether `t` is a `GenericMemory{T}` type.
pub fn is_memory_type(rt: &Runtime, t: u32) -> (r: bool)
    ensures
        r == rt@.is_memory_type(t),
{
    match &rt.builtins {
        Some(b) => is_datatype(rt, t) && name_of(rt, t) == b.memory_typename,
        None => false,
    }
}

/// The byte size of an inline element of type `elem`, if elements are inline.
pub fn inline_size(rt: &Runtime, elem: u32) -> (r: Option<u32>)
    ensures
        r == rt@.inline_size(elem),
{
    let n: u32 = size_of(rt, elem);
    if is_bits(rt, elem, MAX_NESTING) && n > 0 {
        Some(n)
    } else {
        None
    }
}

/// Whether `elem` is a zero-size singleton type.
pub fn is_zero_size(rt: &Runtime, elem: u32) -> (r: bool)
    ensures
        r == rt@.is_zero_size(elem),
{
    is_datatype(rt, elem) && size_of(rt, elem) == 0 && instance_of(rt, elem) != NULL
}

/// Whether a buffer of element type `elem` holds references.
pub fn elem_boxed(rt: &Runtime, elem: u32) -> (r: bool)
    ensures
        r == rt@.elem_boxed(elem),
{
    inline_size(rt, elem).is_none() && !is_zero_size(rt, elem)
}

/// The singleton instance of `Nothing`.
pub fn nothing_instance(rt: &Runtime) -> (r: u32)
    ensures
        r == rt@.instance_of(rt@.builtin(id::NOTHING)),
{
    instance_of(rt, builtin(rt, id::NOTHING))
}

} // verus!
