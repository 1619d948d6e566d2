//! The core types, made before any value.
//!
//! The data type of data types is its own type. It, the types of symbols and of
//! name objects, and `Any` come first and are filled in once symbols can be made;
//! the rest follows a table in which every supertype precedes its uses.

use vstd::prelude::*;
use crate::access::{FLAG_ABSTRACT, FLAG_PRIMITIVE};
use crate::bytes::{text, utf8};
use crate::id;
use crate::object::{alloc_object, set_type};
use crate::region::NULL;
use crate::state::{Builtins, BuiltinsV, Runtime, State, Value};
use crate::structs::{define_struct, fields_view};
use crate::symbol;
use crate::types::{make_layout, make_typename, write_dt, DataType, DT_SIZE};

verus! {

/// A core type to make.
struct Row {
    id: u32,
    name: Vec<u8>,
    super_id: u32,
    flags: u32,
    size: u32,
    ptrs: Vec<u32>,
}

/// The picture of a row.
#[verifier::ext_equal]
pub struct RowV {
    pub id: u32,
    pub name: Seq<u8>,
    pub super_id: u32,
    pub flags: u32,
    pub size: u32,
    pub ptrs: Seq<u32>,
}

impl View for Row {
    type V = RowV;

    closed spec fn view(&self) -> RowV {
        RowV {
            id: self.id,
            name: self.name@,
            super_id: self.super_id,
            flags: self.flags,
            size: self.size,
            ptrs: self.ptrs@,
        }
    }
}

/// A row without references.
pub open spec fn plain(id: u32, name: &str, super_id: u32, flags: u32, size: u32) -> RowV {
    RowV { id, name: utf8(name), super_id, flags, size, ptrs: Seq::empty() }
}

/// A row of a type whose instances are references only.
pub open spec fn record(id: u32, name: &str, super_id: u32, ptrs: Seq<u32>) -> RowV {
    RowV { id, name: utf8(name), super_id, flags: 0, size: (4 * ptrs.len()) as u32, ptrs }
}

/// The types of numbers and characters.
pub open spec fn numbers() -> Seq<RowV> {
    seq![
        plain(id::NUMBER, "Number", id::ANY, FLAG_ABSTRACT, 0),
        plain(id::REAL, "Real", id::NUMBER, FLAG_ABSTRACT, 0),
        plain(id::INTEGER, "Integer", id::REAL, FLAG_ABSTRACT, 0),
        plain(id::SIGNED, "Signed", id::INTEGER, FLAG_ABSTRACT, 0),
        plain(id::UNSIGNED, "Unsigned", id::INTEGER, FLAG_ABSTRACT, 0),
        plain(id::ABSTRACTFLOAT, "AbstractFloat", id::REAL, FLAG_ABSTRACT, 0),
        plain(id::ABSTRACTCHAR, "AbstractChar", id::ANY, FLAG_ABSTRACT, 0),
        plain(id::BOOL, "Bool", id::INTEGER, FLAG_PRIMITIVE, 1),
        plain(id::INT8, "Int8", id::SIGNED, FLAG_PRIMITIVE, 1),
        plain(id::INT16, "Int16", id::SIGNED, FLAG_PRIMITIVE, 2),
        plain(id::INT32, "Int32", id::SIGNED, FLAG_PRIMITIVE, 4),
        plain(id::INT64, "Int64", id::SIGNED, FLAG_PRIMITIVE, 8),
        plain(id::INT128, "Int128", id::SIGNED, FLAG_PRIMITIVE, 16),
        plain(id::UINT8, "UInt8", id::UNSIGNED, FLAG_PRIMITIVE, 1),
        plain(id::UINT16, "UInt16", id::UNSIGNED, FLAG_PRIMITIVE, 2),
        plain(id::UINT32, "UInt32", id::UNSIGNED, FLAG_PRIMITIVE, 4),
        plain(id::UINT64, "UInt64", id::UNSIGNED, FLAG_PRIMITIVE, 8),
        plain(id::UINT128, "UInt128", id::UNSIGNED, FLAG_PRIMITIVE, 16),
        plain(id::FLOAT16, "Float16", id::ABSTRACTFLOAT, FLAG_PRIMITIVE, 2),
        plain(id::FLOAT32, "Float32", id::ABSTRACTFLOAT, FLAG_PRIMITIVE, 4),
        plain(id::FLOAT64, "Float64", id::ABSTRACTFLOAT, FLAG_PRIMITIVE, 8),
        plain(id::CHAR, "Char", id::ABSTRACTCHAR, FLAG_PRIMITIVE, 4),
    ]
}

/// The types of the type system itself, and the rest.
pub open spec fn others() -> Seq<RowV> {
    seq![
        plain(id::NOTHING, "Nothing", id::ANY, 0, 0),
        plain(id::BOTTOM, "Union{}", id::ANY, FLAG_ABSTRACT, 0),
        plain(id::SVEC, "SimpleVector", id::ANY, 0, 0),
        plain(id::TYPE, "Type", id::ANY, FLAG_ABSTRACT, 0),
        record(id::UNION, "Union", id::TYPE, seq![0u32, 4u32]),
        record(id::TVAR, "TypeVar", id::ANY, seq![0u32, 4u32, 8u32]),
        record(id::UNIONALL, "UnionAll", id::TYPE, seq![0u32, 4u32]),
        record(id::VARARG, "Vararg", id::ANY, seq![0u32, 4u32]),
        plain(id::FUNCTION, "Function", id::ANY, FLAG_ABSTRACT, 0),
        plain(id::EXCEPTION, "Exception", id::ANY, FLAG_ABSTRACT, 0),
        record(id::MODULE, "Module", id::ANY, seq![0u32, 4u32, 8u32]),
        record(id::INTERSECT, "Intersect", id::ANY, seq![0u32, 4u32]),
    ]
}

/// The table of core types as far as it is filled.
pub open spec fn entry(types: Seq<u32>, k: u32) -> u32 {
    if k < types.len() {
        types[k as int]
    } else {
        NULL
    }
}

impl State {
    /// A name object for the given text.
    pub open spec fn name_object(self, types: Seq<u32>, name: Seq<u8>) -> (State, u32) {
        let (s, sym) = self.intern(entry(types, id::SYMBOL), name);
        s.make_typename(entry(types, id::TYPENAME), sym)
    }

    /// The state with the body of the bootstrap type `k` filled in.
    pub open spec fn fill_type(self, types: Seq<u32>, row: RowV) -> State {
        let (s1, name) = self.name_object(types, row.name);
        let (s2, layout) = s1.make_layout(row.ptrs);
        s2.write_dt(
            entry(types, row.id),
            DataType {
                name,
                super_: entry(types, row.super_id),
                parameters: NULL,
                types: NULL,
                instance: NULL,
                layout,
                size: row.size,
                nfields: 0,
                flags: row.flags,
            },
        )
    }

    /// The state and the table after the type of `row` was made.
    #[verifier::opaque]
    pub open spec fn add_type(self, types: Seq<u32>, row: RowV) -> (State, Seq<u32>) {
        let (s1, name) = self.name_object(types, row.name);
        let (s2, v) = s1.alloc_object(entry(types, id::DATATYPE), DT_SIZE as int);
        let (s3, layout) = s2.make_layout(row.ptrs);
        let s4 = s3.write_dt(
            v,
            DataType {
                name,
                super_: entry(types, row.super_id),
                parameters: NULL,
                types: NULL,
                instance: NULL,
                layout,
                size: row.size,
                nfields: 0,
                flags: row.flags,
            },
        );
        (
            s4,
            if row.id < types.len() {
                types.update(row.id as int, v)
            } else {
                types
            },
        )
    }

    /// The state and the table after the types of the rows from `i` on were made.
    pub open spec fn add_types(
        self,
        types: Seq<u32>,
        rows: Seq<RowV>,
        i: int,
    ) -> (State, Seq<u32>)
        decreases rows.len() - i,
    {
        if i < 0 || i >= rows.len() {
            (self, types)
        } else {
            let (s, ts) = self.add_type(types, rows[i]);
            s.add_types(ts, rows, i + 1)
        }
    }

    /// The four first types, made and filled in.
    #[verifier::opaque]
    pub open spec fn first_types(self) -> (State, Seq<u32>) {
        let n = DT_SIZE as int;
        let (s1, dt) = self.alloc_object(0, n);
        let (s2, sym) = s1.with_tag(dt, (dt - dt % 4) as u32).alloc_object(dt, n);
        let (s3, tn) = s2.alloc_object(dt, n);
        let (s4, any) = s3.alloc_object(dt, n);
        let types = Seq::new(id::COUNT as nat, |i: int| NULL).update(
            id::DATATYPE as int,
            dt,
        ).update(id::SYMBOL as int, sym).update(id::TYPENAME as int, tn).update(
            id::ANY as int,
            any,
        );
        let s5 = s4.fill_type(
            types,
            RowV {
                id: id::DATATYPE,
                name: utf8("DataType"),
                super_id: id::ANY,
                flags: 0,
                size: DT_SIZE,
                ptrs: seq![0u32, 4u32, 8u32, 12u32, 16u32],
            },
        );
        let s6 = s5.fill_type(types, plain(id::SYMBOL, "Symbol", id::ANY, 0, 0));
        let s7 = s6.fill_type(
            types,
            RowV {
                id: id::TYPENAME,
                name: utf8("TypeName"),
                super_id: id::ANY,
                flags: 0,
                size: 16,
                ptrs: seq![0u32, 4u32, 8u32],
            },
        );
        (s7.fill_type(types, plain(id::ANY, "Any", id::ANY, FLAG_ABSTRACT, 0)), types)
    }

    /// The shared names and values: the state with the core types known.
    #[verifier::opaque]
    pub open spec fn shared_values(self, types: Seq<u32>) -> State {
        let (s1, tuple_typename) = self.name_object(types, utf8("Tuple"));
        let (s2, box_typename) = s1.name_object(types, utf8("Box"));
        let (s3, pair_typename) = s2.name_object(types, utf8("Pair"));
        let (s4, type_typename) = s3.name_object(types, utf8("Type"));
        let (s5, memory_typename) = s4.name_object(types, utf8("GenericMemory"));
        let (s6, array_typename) = s5.name_object(types, utf8("Array"));
        let (s7, array_layout) = s6.make_layout(seq![0u32]);
        let (s8, nothing) = s7.alloc_object(entry(types, id::NOTHING), 0);
        let (s9, false_instance) = s8.with_word(
            entry(types, id::NOTHING),
            16,
            nothing,
        ).alloc_object(entry(types, id::BOOL), 1);
        let (s10, true_instance) = s9.alloc_object(entry(types, id::BOOL), 1);
        State {
            builtins: Some(
                BuiltinsV {
                    types,
                    true_instance,
                    false_instance,
                    tuple_typename,
                    box_typename,
                    pair_typename,
                    type_typename,
                    memory_typename,
                    array_typename,
                    array_layout,
                },
            ),
            ..s10.with_byte(true_instance, 0, 1u8)
        }
    }

    /// The state with the core type `k` known to be `t`.
    pub open spec fn with_builtin(self, k: u32, t: u32) -> State {
        match self.builtins {
            Some(b) if k < b.types.len() => State {
                builtins: Some(BuiltinsV { types: b.types.update(k as int, t), ..b }),
                ..self
            },
            _ => self,
        }
    }

    /// The state with an exception type made; its fields hold anything.
    #[verifier::opaque]
    pub open spec fn add_exception(self, k: u32, name: Seq<u8>, fields: Seq<Seq<u8>>) -> State {
        let any = self.builtin(id::ANY);
        let (s, t) = self.define_struct(
            name,
            self.builtin(id::EXCEPTION),
            fields.map_values(|f: Seq<u8>| (f, any)),
            false,
        );
        s.with_builtin(k, t)
    }

    /// The state with the core types made, but for the exceptions.
    #[verifier::opaque]
    pub open spec fn core_types(self) -> State {
        let s0 = State { syms: Seq::empty(), structs: Seq::empty(), builtins: None, ..self };
        let (s1, types1) = s0.first_types();
        let (s2, types2) = s1.add_types(types1, numbers(), 0);
        let (s3, types3) = s2.add_types(types2, others(), 0);
        s3.with_word(
            entry(types3, id::DATATYPE),
            4,
            entry(types3, id::TYPE),
        ).shared_values(types3)
    }

    /// The state with the core types made.
    #[verifier::opaque]
    pub open spec fn bootstrap(self) -> State {
        self.core_types().add_exception(
            id::DIVIDEERROR,
            utf8("DivideError"),
            Seq::empty(),
        ).add_exception(
            id::UNDEFREFERROR,
            utf8("UndefRefError"),
            Seq::empty(),
        ).add_exception(
            id::OUTOFMEMORYERROR,
            utf8("OutOfMemoryError"),
            Seq::empty(),
        ).add_exception(
            id::BOUNDSERROR,
            utf8("BoundsError"),
            seq![utf8("a"), utf8("i")],
        ).add_exception(id::ERROREXCEPTION, utf8("ErrorException"), seq![utf8("msg")])
    }
}

/// The picture of a list of rows.
spec fn rows_view(rows: Seq<Row>) -> Seq<RowV> {
    rows.map_values(|r: Row| r@)
}

/// Makes a row without references.
fn plain_row(id: u32, name: &str, super_id: u32, flags: u32, size: u32) -> (r: Row)
    ensures
        r@ == plain(id, name, super_id, flags, size),
{
    let r: Row = Row { id, name: text(name), super_id, flags, size, ptrs: Vec::new() };
    assert(r@.ptrs =~= Seq::<u32>::empty());
    r
}

/// Makes a row of a type with `n` references.
fn record_row(id: u32, name: &str, super_id: u32, ptrs: Vec<u32>) -> (r: Row)
    requires
        ptrs.len() < 100,
    ensures
        r@ == record(id, name, super_id, ptrs@),
{
    let size: u32 = 4 * (ptrs.len() as u32);
    Row { id, name: text(name), super_id, flags: 0, size, ptrs }
}

/// The offsets of two references.
fn two_refs() -> (r: Vec<u32>)
    ensures
        r@ == seq![0u32, 4u32],
{
    let r: Vec<u32> = vec![0, 4];
    assert(r@ =~= seq![0u32, 4u32]);
    r
}

/// The offsets of three references.
fn three_refs() -> (r: Vec<u32>)
    ensures
        r@ == seq![0u32, 4u32, 8u32],
{
    let r: Vec<u32> = vec![0, 4, 8];
    assert(r@ =~= seq![0u32, 4u32, 8u32]);
    r
}

/// The rows of numbers and characters.
#[verifier::rlimit(80)]
#[verifier::spinoff_prover]
fn number_rows() -> (r: Vec<Row>)
    ensures
        rows_view(r@) == numbers(),
{
    let r: Vec<Row> = vec![
        plain_row(id::NUMBER, "Number", id::ANY, FLAG_ABSTRACT, 0),
        plain_row(id::REAL, "Real", id::NUMBER, FLAG_ABSTRACT, 0),
        plain_row(id::INTEGER, "Integer", id::REAL, FLAG_ABSTRACT, 0),
        plain_row(id::SIGNED, "Signed", id::INTEGER, FLAG_ABSTRACT, 0),
        plain_row(id::UNSIGNED, "Unsigned", id::INTEGER, FLAG_ABSTRACT, 0),
        plain_row(id::ABSTRACTFLOAT, "AbstractFloat", id::REAL, FLAG_ABSTRACT, 0),
        plain_row(id::ABSTRACTCHAR, "AbstractChar", id::ANY, FLAG_ABSTRACT, 0),
        plain_row(id::BOOL, "Bool", id::INTEGER, FLAG_PRIMITIVE, 1),
        plain_row(id::INT8, "Int8", id::SIGNED, FLAG_PRIMITIVE, 1),
        plain_row(id::INT16, "Int16", id::SIGNED, FLAG_PRIMITIVE, 2),
        plain_row(id::INT32, "Int32", id::SIGNED, FLAG_PRIMITIVE, 4),
        plain_row(id::INT64, "Int64", id::SIGNED, FLAG_PRIMITIVE, 8),
        plain_row(id::INT128, "Int128", id::SIGNED, FLAG_PRIMITIVE, 16),
        plain_row(id::UINT8, "UInt8", id::UNSIGNED, FLAG_PRIMITIVE, 1),
        plain_row(id::UINT16, "UInt16", id::UNSIGNED, FLAG_PRIMITIVE, 2),
        plain_row(id::UINT32, "UInt32", id::UNSIGNED, FLAG_PRIMITIVE, 4),
        plain_row(id::UINT64, "UInt64", id::UNSIGNED, FLAG_PRIMITIVE, 8),
        plain_row(id::UINT128, "UInt128", id::UNSIGNED, FLAG_PRIMITIVE, 16),
        plain_row(id::FLOAT16, "Float16", id::ABSTRACTFLOAT, FLAG_PRIMITIVE, 2),
        plain_row(id::FLOAT32, "Float32", id::ABSTRACTFLOAT, FLAG_PRIMITIVE, 4),
        plain_row(id::FLOAT64, "Float64", id::ABSTRACTFLOAT, FLAG_PRIMITIVE, 8),
        plain_row(id::CHAR, "Char", id::ABSTRACTCHAR, FLAG_PRIMITIVE, 4),
    ];
    assert(rows_view(r@) =~= numbers());
    r
}

/// The rows of the type system itself, and the rest.
fn other_rows() -> (r: Vec<Row>)
    ensures
        rows_view(r@) == others(),
{
    let r: Vec<Row> = vec![
        plain_row(id::NOTHING, "Nothing", id::ANY, 0, 0),
        plain_row(id::BOTTOM, "Union{}", id::ANY, FLAG_ABSTRACT, 0),
        plain_row(id::SVEC, "SimpleVector", id::ANY, 0, 0),
        plain_row(id::TYPE, "Type", id::ANY, FLAG_ABSTRACT, 0),
        record_row(id::UNION, "Union", id::TYPE, two_refs()),
        record_row(id::TVAR, "TypeVar", id::ANY, three_refs()),
        record_row(id::UNIONALL, "UnionAll", id::TYPE, two_refs()),
        record_row(id::VARARG, "Vararg", id::ANY, two_refs()),
        plain_row(id::FUNCTION, "Function", id::ANY, FLAG_ABSTRACT, 0),
        plain_row(id::EXCEPTION, "Exception", id::ANY, FLAG_ABSTRACT, 0),
        record_row(id::MODULE, "Module", id::ANY, three_refs()),
        record_row(id::INTERSECT, "Intersect", id::ANY, two_refs()),
    ];
    assert(rows_view(r@) =~= others());
    r
}

/// The table's type `k`.
fn entry_of(types: &Vec<u32>, k: u32) -> (r: u32)
    ensures
        r == entry(types@, k),
{
    if (k as usize) < types.len() {
        types[k as usize]
    } else {
        NULL
    }
}

/// Makes a name object for the given text.
fn name_object(rt: &mut Runtime, types: &Vec<u32>, name: &Vec<u8>) -> (r: u32)
    ensures
        (final(rt)@, r) == old(rt)@.name_object(types@, name@),
{
    let sym: u32 = symbol::intern_bytes(rt, entry_of(types, id::SYMBOL), name.as_slice());
    make_typename(rt, entry_of(types, id::TYPENAME), sym)
}

/// Fills in the body of a bootstrap type.
fn fill_type(rt: &mut Runtime, types: &Vec<u32>, row: &Row)
    ensures
        final(rt)@ == old(rt)@.fill_type(types@, row@),
{
    let name: u32 = name_object(rt, types, &row.name);
    let layout: u32 = make_layout(rt, &row.ptrs);
    write_dt(
        rt,
        entry_of(types, row.id),
        DataType {
            name,
            super_: entry_of(types, row.super_id),
            parameters: NULL,
            types: NULL,
            instance: NULL,
            layout,
            size: row.size,
            nfields: 0,
            flags: row.flags,
        },
    );
}

/// Makes the type of a row.
#[verifier::rlimit(60)]
fn add_type(rt: &mut Runtime, types: &mut Vec<u32>, row: &Row)
    ensures
        (final(rt)@, final(types)@) == old(rt)@.add_type(old(types)@, row@),
{
    proof {
        reveal(State::add_type);
    }
    let name: u32 = name_object(rt, types, &row.name);
    let v: u32 = alloc_object(rt, entry_of(types, id::DATATYPE), DT_SIZE).0;
    let layout: u32 = make_layout(rt, &row.ptrs);
    write_dt(
        rt,
        v,
        DataType {
            name,
            super_: entry_of(types, row.super_id),
            parameters: NULL,
            types: NULL,
            instance: NULL,
            layout,
            size: row.size,
            nfields: 0,
            flags: row.flags,
        },
    );
    if (row.id as usize) < types.len() {
        types.set(row.id as usize, v);
    }
}

/// Makes the types of all rows.
fn add_types(rt: &mut Runtime, types: &mut Vec<u32>, rows: &Vec<Row>)
    ensures
        (final(rt)@, final(types)@) == old(rt)@.add_types(old(types)@, rows_view(rows@), 0),
{
    let mut i: usize = 0;
    let ghost rs = rows_view(rows@);
    while i < rows.len()
        invariant
            i <= rows.len(),
            rs == rows_view(rows@),
            old(rt)@.add_types(old(types)@, rs, 0) == rt@.add_types(types@, rs, i as int),
        decreases rows.len() - i,
    {
        add_type(rt, types, &rows[i]);
        i = i + 1;
    }
}

/// Makes and fills in the four first types.
#[verifier::rlimit(80)]
#[verifier::spinoff_prover]
fn first_types(rt: &mut Runtime) -> (r: Vec<u32>)
    ensures
        (final(rt)@, r@) == old(rt)@.first_types(),
{
    proof {
        reveal(State::first_types);
    }
    let dt: u32 = alloc_object(rt, 0, DT_SIZE).0;
    set_type(rt, Value(dt), dt);
    let sym: u32 = alloc_object(rt, dt, DT_SIZE).0;
    let tn: u32 = alloc_object(rt, dt, DT_SIZE).0;
    let any: u32 = alloc_object(rt, dt, DT_SIZE).0;
    let mut types: Vec<u32> = Vec::new();
    while types.len() < id::COUNT
        invariant
            types.len() <= id::COUNT,
            forall|k: int| 0 <= k < types.len() ==> types@[k] == NULL,
        decreases id::COUNT - types.len(),
    {
        types.push(NULL);
    }
    assert(types@ =~= Seq::new(id::COUNT as nat, |i: int| NULL));
    types.set(id::DATATYPE as usize, dt);
    types.set(id::SYMBOL as usize, sym);
    types.set(id::TYPENAME as usize, tn);
    types.set(id::ANY as usize, any);
    let refs: Vec<u32> = vec![0, 4, 8, 12, 16];
    assert(refs@ =~= seq![0u32, 4u32, 8u32, 12u32, 16u32]);
    fill_type(
        rt,
        &types,
        &Row {
            id: id::DATATYPE,
            name: text("DataType"),
            super_id: id::ANY,
            flags: 0,
            size: DT_SIZE,
            ptrs: refs,
        },
    );
    fill_type(rt, &types, &plain_row(id::SYMBOL, "Symbol", id::ANY, 0, 0));
    fill_type(
        rt,
        &types,
        &Row {
            id: id::TYPENAME,
            name: text("TypeName"),
            super_id: id::ANY,
            flags: 0,
            size: 16,
            ptrs: three_refs(),
        },
    );
    fill_type(rt, &types, &plain_row(id::ANY, "Any", id::ANY, FLAG_ABSTRACT, 0));
    types
}

/// Makes the shared names and values.
#[verifier::rlimit(60)]
fn shared_values(rt: &mut Runtime, types: Vec<u32>)
    ensures
        final(rt)@ == old(rt)@.shared_values(types@),
{
    proof {
        reveal(State::shared_values);
    }
    let tuple_typename: u32 = name_object(rt, &types, &text("Tuple"));
    let box_typename: u32 = name_object(rt, &types, &text("Box"));
    let pair_typename: u32 = name_object(rt, &types, &text("Pair"));
    let type_typename: u32 = name_object(rt, &types, &text("Type"));
    let memory_typename: u32 = name_object(rt, &types, &text("GenericMemory"));
    let array_typename: u32 = name_object(rt, &types, &text("Array"));
    let refs: Vec<u32> = vec![0];
    assert(refs@ =~= seq![0u32]);
    let array_layout: u32 = make_layout(rt, &refs);
    let nothing: u32 = alloc_object(rt, entry_of(&types, id::NOTHING), 0).0;
    rt.set_word(entry_of(&types, id::NOTHING), 16, nothing);
    let false_instance: u32 = alloc_object(rt, entry_of(&types, id::BOOL), 1).0;
    let true_instance: u32 = alloc_object(rt, entry_of(&types, id::BOOL), 1).0;
    rt.set_byte(true_instance, 0, 1);
    rt.builtins = Some(
        Builtins {
            types,
            true_instance,
            false_instance,
            tuple_typename,
            box_typename,
            pair_typename,
            type_typename,
            memory_typename,
            array_typename,
            array_layout,
        },
    );
}

/// Records the core type `k`.
fn set_builtin(rt: &mut Runtime, k: u32, t: u32)
    ensures
        final(rt)@ == old(rt)@.with_builtin(k, t),
{
    match &mut rt.builtins {
        Some(b) => {
            if (k as usize) < b.types.len() {
                b.types.set(k as usize, t);
            }
        },
        None => (),
    }
}

/// Makes an exception type.
#[verifier::rlimit(60)]
fn add_exception(rt: &mut Runtime, k: u32, name: &str, fields: &Vec<Vec<u8>>)
    requires
        fields.len() < 100,
    ensures
        final(rt)@ == old(rt)@.add_exception(
            k,
            utf8(name),
            fields@.map_values(|f: Vec<u8>| f@),
        ),
{
    proof {
        reveal(State::add_exception);
    }
    let any: u32 = crate::access::builtin(rt, id::ANY);
    let super_: u32 = crate::access::builtin(rt, id::EXCEPTION);
    let mut fs: Vec<(Vec<u8>, u32)> = Vec::new();
    let mut i: usize = 0;
    while i < fields.len()
        invariant
            i <= fields.len(),
            fs.len() == i,
            forall|k: int| 0 <= k < i ==> fs@[k].0@ == fields@[k]@ && fs@[k].1 == any,
        decreases fields.len() - i,
    {
        let f: &Vec<u8> = &fields[i];
        fs.push((crate::bytes::copy_bytes(f.as_slice()), any));
        i = i + 1;
    }
    assert(fields_view(fs@) =~= fields@.map_values(|f: Vec<u8>| f@).map_values(
        |f: Seq<u8>| (f, any),
    ));
    let t: u32 = define_struct(rt, &text(name), super_, &fs, false);
    set_builtin(rt, k, t);
}

/// Makes the core types. The region and the heap must have been reset.
#[verifier::rlimit(60)]
pub fn bootstrap(rt: &mut Runtime)
    ensures
        final(rt)@ == old(rt)@.bootstrap(),
{
    proof {
        reveal(State::bootstrap);
        reveal(State::core_types);
    }
    symbol::reset(rt);
    rt.structs = Vec::new();
    rt.builtins = None;
    assert(rt@ =~= (State {
        syms: Seq::empty(),
        structs: Seq::empty(),
        builtins: None,
        ..old(rt)@
    }));
    let mut types: Vec<u32> = first_types(rt);
    add_types(rt, &mut types, &number_rows());
    add_types(rt, &mut types, &other_rows());
    rt.set_word(entry_of(&types, id::DATATYPE), 4, entry_of(&types, id::TYPE));
    shared_values(rt, types);
    let none: Vec<Vec<u8>> = Vec::new();
    assert(none@.map_values(|f: Vec<u8>| f@) =~= Seq::<Seq<u8>>::empty());
    add_exception(rt, id::DIVIDEERROR, "DivideError", &none);
    add_exception(rt, id::UNDEFREFERROR, "UndefRefError", &none);
    add_exception(rt, id::OUTOFMEMORYERROR, "OutOfMemoryError", &none);
    let two: Vec<Vec<u8>> = vec![text("a"), text("i")];
    assert(two@.map_values(|f: Vec<u8>| f@) =~= seq![utf8("a"), utf8("i")]);
    add_exception(rt, id::BOUNDSERROR, "BoundsError", &two);
    let one: Vec<Vec<u8>> = vec![text("msg")];
    assert(one@.map_values(|f: Vec<u8>| f@) =~= seq![utf8("msg")]);
    add_exception(rt, id::ERROREXCEPTION, "ErrorException", &one);
}

} // verus!
