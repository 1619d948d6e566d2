//! Identifiers of the core types, indexing the table of core types.

use vstd::prelude::*;

verus! {

pub const ANY: u32 = 0;
pub const NUMBER: u32 = 1;
pub const REAL: u32 = 2;
pub const INTEGER: u32 = 3;
pub const SIGNED: u32 = 4;
pub const UNSIGNED: u32 = 5;
pub const ABSTRACTFLOAT: u32 = 6;
pub const ABSTRACTCHAR: u32 = 7;
pub const BOOL: u32 = 8;
pub const INT8: u32 = 9;
pub const INT16: u32 = 10;
pub const INT32: u32 = 11;
pub const INT64: u32 = 12;
pub const INT128: u32 = 13;
pub const UINT8: u32 = 14;
pub const UINT16: u32 = 15;
pub const UINT32: u32 = 16;
pub const UINT64: u32 = 17;
pub const UINT128: u32 = 18;
pub const FLOAT16: u32 = 19;
pub const FLOAT32: u32 = 20;
pub const FLOAT64: u32 = 21;
pub const CHAR: u32 = 22;
pub const SYMBOL: u32 = 23;
pub const NOTHING: u32 = 24;
pub const DATATYPE: u32 = 25;
/// `Union{}`, the type without values.
pub const BOTTOM: u32 = 26;
/// `SimpleVector`, the container of type parameters.
pub const SVEC: u32 = 27;
/// The type of union objects.
pub const UNION: u32 = 28;
/// The type of a data type's name object.
pub const TYPENAME: u32 = 29;
/// The type of type variables.
pub const TVAR: u32 = 30;
/// The type of `T where ...` objects.
pub const UNIONALL: u32 = 31;
/// The type of the open tail of a tuple type.
pub const VARARG: u32 = 32;
/// The supertype of the kinds.
pub const TYPE: u32 = 33;
/// The supertype of function singletons.
pub const FUNCTION: u32 = 34;
pub const EXCEPTION: u32 = 35;
pub const DIVIDEERROR: u32 = 36;
pub const UNDEFREFERROR: u32 = 37;
pub const OUTOFMEMORYERROR: u32 = 38;
pub const BOUNDSERROR: u32 = 39;
pub const ERROREXCEPTION: u32 = 40;
pub const MODULE: u32 = 41;
/// The type of the subtype engine's internal meet nodes.
pub const INTERSECT: u32 = 42;
/// The number of core types.
pub const COUNT: usize = 43;

} // verus!
