//! The pieces of a WebAssembly module, and the calls that encode and validate it.
//!
//! The encoder's sections and function bodies are opaque; names say what they hold.

use vstd::prelude::*;
use wasm_encoder::{
    BlockType, CodeSection, EntityType, ExportKind, ExportSection, Function, FunctionSection,
    ImportSection, Instruction, MemArg, MemArgTarget, MemoryType, Module, TypeSection, ValType,
};

verus! {

/// The largest number of instructions or locals of a body, and of parameters of a
/// type. An encoded instruction takes at most sixteen bytes, so that a code section
/// with a few such bodies stays below the four gigabytes that a size can tell.
pub const MAX_ENTRIES: usize = 0x200_0000;

/// The largest number of entries of a section.
pub const MAX_SECTION: usize = 16;

/// A value type.
#[derive(Clone, Copy, PartialEq, Eq, Structural)]
pub enum Ty {
    I32,
    I64,
}

/// An operation on two 64-bit integers.
#[derive(Clone, Copy, PartialEq, Eq, Structural)]
pub enum Arith {
    Add,
    Sub,
    Mul,
    And,
    Or,
    Xor,
    LeS,
    LtS,
    LeU,
    LtU,
    Eq,
    Ne,
}

/// An instruction without operands.
#[derive(Clone, Copy, PartialEq, Eq, Structural)]
pub enum Plain {
    Loop,
    Block,
    If,
    Else,
    End,
    Return,
    Unreachable,
    I32Add,
}

/// An instruction with an index.
#[derive(Clone, Copy, PartialEq, Eq, Structural)]
pub enum Indexed {
    LocalGet,
    LocalSet,
    Call,
    Br,
}

/// A memory access.
#[derive(Clone, Copy, PartialEq, Eq, Structural)]
pub enum Access {
    I64Load,
    I32Load,
    I32Store,
}

/// A constant.
#[derive(Clone, Copy, PartialEq, Eq, Structural)]
pub enum Const {
    I64(i64),
    I32(i32),
}

/// An instruction.
#[derive(Clone, Copy, PartialEq, Eq, Structural)]
pub enum Insn {
    Arith(Arith),
    Plain(Plain),
    Index(Indexed, u32),
    Const(Const),
    /// A memory access with its offset and the logarithm of its alignment.
    Mem(Access, u64, u32),
}

/// What an import is.
#[derive(Clone, Copy, PartialEq, Eq, Structural)]
pub enum ImportKind {
    /// A 32-bit memory with at least this many pages and no upper limit.
    Memory(u64),
    /// A function with the type of this number.
    Function(u32),
}

/// The picture of an import.
#[verifier::ext_equal]
pub struct ImportV {
    pub module: Seq<char>,
    pub name: Seq<char>,
    pub kind: ImportKind,
}

/// The picture of a function type.
#[verifier::ext_equal]
pub struct TypeV {
    pub params: Seq<Ty>,
    pub results: Seq<Ty>,
}

/// The picture of a function body: its locals, in runs of one type, and its code.
#[verifier::ext_equal]
pub struct BodyV {
    pub locals: Seq<(u32, Ty)>,
    pub insns: Seq<Insn>,
}

/// The picture of a section.
#[verifier::ext_equal]
pub enum SectionV {
    Types(Seq<TypeV>),
    Imports(Seq<ImportV>),
    /// The types of the functions.
    Functions(Seq<u32>),
    /// The exported functions.
    Exports(Seq<(Seq<char>, u32)>),
    Code(Seq<BodyV>),
}

#[verifier::external_type_specification]
#[verifier::external_body]
pub struct ExFunction(wasm_encoder::Function);

#[verifier::external_type_specification]
#[verifier::external_body]
pub struct ExTypeSection(wasm_encoder::TypeSection);

#[verifier::external_type_specification]
#[verifier::external_body]
pub struct ExImportSection(wasm_encoder::ImportSection);

#[verifier::external_type_specification]
#[verifier::external_body]
pub struct ExFunctionSection(wasm_encoder::FunctionSection);

#[verifier::external_type_specification]
#[verifier::external_body]
pub struct ExExportSection(wasm_encoder::ExportSection);

#[verifier::external_type_specification]
#[verifier::external_body]
pub struct ExCodeSection(wasm_encoder::CodeSection);

#[verifier::external_type_specification]
#[verifier::external_body]
pub struct ExModule(wasm_encoder::Module);

/// The locals that a body declares.
pub uninterp spec fn function_locals(f: wasm_encoder::Function) -> Seq<(u32, Ty)>;

/// The instructions of a body.
pub uninterp spec fn function_insns(f: wasm_encoder::Function) -> Seq<Insn>;

/// The entries of a type section.
pub uninterp spec fn type_entries(s: wasm_encoder::TypeSection) -> Seq<TypeV>;

/// The entries of an import section.
pub uninterp spec fn import_entries(s: wasm_encoder::ImportSection) -> Seq<ImportV>;

/// The entries of a function section.
pub uninterp spec fn function_entries(s: wasm_encoder::FunctionSection) -> Seq<u32>;

/// The entries of an export section.
pub uninterp spec fn export_entries(s: wasm_encoder::ExportSection) -> Seq<(Seq<char>, u32)>;

/// The entries of a code section.
pub uninterp spec fn code_entries(s: wasm_encoder::CodeSection) -> Seq<BodyV>;

/// The sections of a module.
pub uninterp spec fn module_sections(m: wasm_encoder::Module) -> Seq<SectionV>;

/// The binary form of a module with the given sections.
pub uninterp spec fn module_bytes(sections: Seq<SectionV>) -> Seq<u8>;

/// What is wrong with a binary module: nothing where it is valid.
pub uninterp spec fn fault(bytes: Seq<u8>) -> Option<Seq<u8>>;

/// A body without instructions. `Function::new` writes the runs of locals in order.
#[verifier::external_body]
pub(crate) fn new_function(locals: &Vec<(u32, Ty)>) -> (r: Function)
    requires
        locals.len() <= MAX_ENTRIES,
    ensures
        function_locals(r) == locals@,
        function_insns(r) == Seq::<Insn>::empty(),
{
    Function::new(locals.iter().map(|l| {
        let ty = match l.1 {
            Ty::I32 => ValType::I32,
            Ty::I64 => ValType::I64,
        };
        (l.0, ty)
    }))
}

/// Adds an integer operation: `Function::instruction` writes the instruction with
/// this name at the end of the body.
#[verifier::external_body]
fn put_arith(f: &mut Function, a: Arith)
    ensures
        function_locals(*final(f)) == function_locals(*old(f)),
        function_insns(*final(f)) == function_insns(*old(f)).push(Insn::Arith(a)),
{
    f.instruction(&match a {
        Arith::Add => Instruction::I64Add,
        Arith::Sub => Instruction::I64Sub,
        Arith::Mul => Instruction::I64Mul,
        Arith::And => Instruction::I64And,
        Arith::Or => Instruction::I64Or,
        Arith::Xor => Instruction::I64Xor,
        Arith::LeS => Instruction::I64LeS,
        Arith::LtS => Instruction::I64LtS,
        Arith::LeU => Instruction::I64LeU,
        Arith::LtU => Instruction::I64LtU,
        Arith::Eq => Instruction::I64Eq,
        Arith::Ne => Instruction::I64Ne,
    });
}

/// Adds an instruction without operands, by `Function::instruction`; the frames have
/// the empty block type.
#[verifier::external_body]
fn put_plain(f: &mut Function, p: Plain)
    ensures
        function_locals(*final(f)) == function_locals(*old(f)),
        function_insns(*final(f)) == function_insns(*old(f)).push(Insn::Plain(p)),
{
    f.instruction(&match p {
        Plain::Loop => Instruction::Loop(BlockType::Empty),
        Plain::Block => Instruction::Block(BlockType::Empty),
        Plain::If => Instruction::If(BlockType::Empty),
        Plain::Else => Instruction::Else,
        Plain::End => Instruction::End,
        Plain::Return => Instruction::Return,
        Plain::Unreachable => Instruction::Unreachable,
        Plain::I32Add => Instruction::I32Add,
    });
}

/// Adds an instruction with an index, by `Function::instruction`.
#[verifier::external_body]
fn put_indexed(f: &mut Function, op: Indexed, i: u32)
    ensures
        function_locals(*final(f)) == function_locals(*old(f)),
        function_insns(*final(f)) == function_insns(*old(f)).push(Insn::Index(op, i)),
{
    f.instruction(&match op {
        Indexed::LocalGet => Instruction::LocalGet(i),
        Indexed::LocalSet => Instruction::LocalSet(i),
        Indexed::Call => Instruction::Call(i),
        Indexed::Br => Instruction::Br(i),
    });
}

/// Adds a constant, by `Function::instruction`.
#[verifier::external_body]
fn put_const(f: &mut Function, c: Const)
    ensures
        function_locals(*final(f)) == function_locals(*old(f)),
        function_insns(*final(f)) == function_insns(*old(f)).push(Insn::Const(c)),
{
    f.instruction(&match c {
        Const::I64(x) => Instruction::I64Const(x),
        Const::I32(x) => Instruction::I32Const(x),
    });
}

/// Adds an access to the first memory, by `Function::instruction`.
#[verifier::external_body]
fn put_access(f: &mut Function, a: Access, offset: u64, align: u32)
    ensures
        function_locals(*final(f)) == function_locals(*old(f)),
        function_insns(*final(f)) == function_insns(*old(f)).push(Insn::Mem(a, offset, align)),
{
    let at = MemArg { offset, align, target: MemArgTarget::Memory(0), ordering: None };
    f.instruction(&match a {
        Access::I64Load => Instruction::I64Load(at),
        Access::I32Load => Instruction::I32Load(at),
        Access::I32Store => Instruction::I32Store(at),
    });
}

/// Adds an instruction to a body.
pub(crate) fn put(f: &mut Function, i: Insn)
    ensures
        function_locals(*final(f)) == function_locals(*old(f)),
        function_insns(*final(f)) == function_insns(*old(f)).push(i),
{
    match i {
        Insn::Arith(a) => put_arith(f, a),
        Insn::Plain(p) => put_plain(f, p),
        Insn::Index(op, k) => put_indexed(f, op, k),
        Insn::Const(c) => put_const(f, c),
        Insn::Mem(a, offset, align) => put_access(f, a, offset, align),
    }
}

/// A type section without entries, by `TypeSection::new`.
#[verifier::external_body]
pub(crate) fn new_types() -> (r: TypeSection)
    ensures
        type_entries(r) == Seq::<TypeV>::empty(),
{
    TypeSection::new()
}

/// Adds a function type at the end, by `TypeSection::ty` and its `function`.
#[verifier::external_body]
pub(crate) fn add_type(s: &mut TypeSection, params: &Vec<Ty>, results: &Vec<Ty>)
    requires
        params.len() <= MAX_ENTRIES,
        results.len() <= MAX_ENTRIES,
        type_entries(*old(s)).len() < MAX_SECTION,
    ensures
        type_entries(*final(s)) == type_entries(*old(s)).push(
            (TypeV { params: params@, results: results@ }),
        ),
{
    let conv = |t: &Ty| match t {
        Ty::I32 => ValType::I32,
        Ty::I64 => ValType::I64,
    };
    s.ty().function(params.iter().map(conv), results.iter().map(conv));
}

/// An import section without entries, by `ImportSection::new`.
#[verifier::external_body]
pub(crate) fn new_imports() -> (r: ImportSection)
    ensures
        import_entries(r) == Seq::<ImportV>::empty(),
{
    ImportSection::new()
}

/// Adds an import at the end, by `ImportSection::import`.
#[verifier::external_body]
pub(crate) fn add_import(s: &mut ImportSection, module: &str, name: &str, kind: ImportKind)
    requires
        module@.len() <= MAX_SECTION,
        name@.len() <= 64,
        import_entries(*old(s)).len() < MAX_SECTION,
    ensures
        import_entries(*final(s)) == import_entries(*old(s)).push(
            (ImportV { module: module@, name: name@, kind }),
        ),
{
    let ty = match kind {
        ImportKind::Memory(minimum) => EntityType::Memory(MemoryType {
            minimum,
            maximum: None,
            memory64: false,
            shared: false,
            page_size_log2: None,
        }),
        ImportKind::Function(t) => EntityType::Function(t),
    };
    s.import(module, name, ty);
}

/// A function section without entries, by `FunctionSection::new`.
#[verifier::external_body]
pub(crate) fn new_functions() -> (r: FunctionSection)
    ensures
        function_entries(r) == Seq::<u32>::empty(),
{
    FunctionSection::new()
}

/// Adds a function of a type at the end, by `FunctionSection::function`.
#[verifier::external_body]
pub(crate) fn add_function(s: &mut FunctionSection, type_index: u32)
    requires
        function_entries(*old(s)).len() < MAX_SECTION,
    ensures
        function_entries(*final(s)) == function_entries(*old(s)).push(type_index),
{
    s.function(type_index);
}

/// An export section without entries, by `ExportSection::new`.
#[verifier::external_body]
pub(crate) fn new_exports() -> (r: ExportSection)
    ensures
        export_entries(r) == Seq::<(Seq<char>, u32)>::empty(),
{
    ExportSection::new()
}

/// Adds an exported function at the end, by `ExportSection::export`.
#[verifier::external_body]
pub(crate) fn add_export(s: &mut ExportSection, name: &str, index: u32)
    requires
        name@.len() <= MAX_ENTRIES,
        export_entries(*old(s)).len() < MAX_SECTION,
    ensures
        export_entries(*final(s)) == export_entries(*old(s)).push((name@, index)),
{
    s.export(name, ExportKind::Func, index);
}

/// A code section without entries, by `CodeSection::new`.
#[verifier::external_body]
pub(crate) fn new_code() -> (r: CodeSection)
    ensures
        code_entries(r) == Seq::<BodyV>::empty(),
{
    CodeSection::new()
}

/// Adds a body at the end, by `CodeSection::function`.
#[verifier::external_body]
pub(crate) fn add_body(s: &mut CodeSection, f: &Function)
    requires
        function_locals(*f).len() <= MAX_ENTRIES,
        function_insns(*f).len() <= MAX_ENTRIES,
        code_entries(*old(s)).len() < 4,
    ensures
        code_entries(*final(s)) == code_entries(*old(s)).push(
            (BodyV { locals: function_locals(*f), insns: function_insns(*f) }),
        ),
{
    s.function(f);
}

/// A section of any kind.
pub enum Section {
    Types(TypeSection),
    Imports(ImportSection),
    Functions(FunctionSection),
    Exports(ExportSection),
    Code(CodeSection),
}

impl View for Section {
    type V = SectionV;

    open spec fn view(&self) -> SectionV {
        match self {
            Section::Types(s) => SectionV::Types(type_entries(*s)),
            Section::Imports(s) => SectionV::Imports(import_entries(*s)),
            Section::Functions(s) => SectionV::Functions(function_entries(*s)),
            Section::Exports(s) => SectionV::Exports(export_entries(*s)),
            Section::Code(s) => SectionV::Code(code_entries(*s)),
        }
    }
}

/// A module without sections, by `Module::new`.
#[verifier::external_body]
pub(crate) fn new_module() -> (r: Module)
    ensures
        module_sections(r) == Seq::<SectionV>::empty(),
{
    Module::new()
}

/// Whether the encoded section stays below four gigabytes.
pub open spec fn is_small(s: SectionV) -> bool {
    match s {
        SectionV::Types(v) => v.len() <= MAX_SECTION && forall|i: int|
            0 <= i < v.len() ==> (#[trigger] v[i]).params.len() + v[i].results.len() <= MAX_ENTRIES,
        SectionV::Imports(v) => v.len() <= MAX_SECTION && forall|i: int|
            0 <= i < v.len() ==> (#[trigger] v[i]).module.len() + v[i].name.len() <= 80,
        SectionV::Functions(v) => v.len() <= MAX_SECTION,
        SectionV::Exports(v) => v.len() <= 4 && forall|i: int|
            0 <= i < v.len() ==> (#[trigger] v[i]).0.len() <= MAX_ENTRIES,
        SectionV::Code(v) => v.len() <= 4 && forall|i: int|
            0 <= i < v.len() ==> (#[trigger] v[i]).locals.len() <= MAX_ENTRIES && v[i].insns.len()
                <= MAX_ENTRIES,
    }
}

/// Adds a section at the end, by `Module::section`.
#[verifier::external_body]
pub(crate) fn add_section(m: &mut Module, s: &Section)
    requires
        is_small(s@),
    ensures
        module_sections(*final(m)) == module_sections(*old(m)).push(s@),
{
    match s {
        Section::Types(x) => m.section(x),
        Section::Imports(x) => m.section(x),
        Section::Functions(x) => m.section(x),
        Section::Exports(x) => m.section(x),
        Section::Code(x) => m.section(x),
    };
}

/// The binary form of a module, by `Module::finish`; it depends on the sections alone.
#[verifier::external_body]
pub(crate) fn finish(m: Module) -> (r: Vec<u8>)
    ensures
        r@ == module_bytes(module_sections(m)),
{
    m.finish()
}

/// Validates a binary module: `wasmparser::validate` gives an error with a text for
/// an invalid one. The verdict depends on the bytes alone.
#[verifier::external_body]
pub(crate) fn validate(bytes: &Vec<u8>) -> (r: Option<Vec<u8>>)
    ensures
        match r {
            Some(m) => fault(bytes@) == Some(m@),
            None => fault(bytes@) is None,
        },
{
    match wasmparser::validate(bytes) {
        Ok(_) => None,
        Err(e) => Some(e.to_string().into_bytes()),
    }
}

} // verus!
