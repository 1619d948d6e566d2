//! A small language runtime with machine-checked behaviour.
//!
//! The runtime owns a bounded heap of tagged objects, a generational
//! mark-and-sweep collector, a type lattice with an environment-based subtype
//! engine, multiple dispatch, an interpreter for a lowered intermediate
//! representation and a front end for a small source language. Beside it stands
//! an ahead-of-time compiler from a serialised control-flow graph to WebAssembly.
//!
//! All runtime state lives in one [`state::Runtime`] value. Its mathematical
//! picture is [`state::State`]; the contract of an operation relates the picture
//! before the call to the picture after it.

pub mod abi;
pub mod array;
pub mod balance;
pub mod bootstrap;
pub mod bounds;
pub mod builtins;
pub mod bytes;
pub mod access;
pub mod id;
pub mod ir;
pub mod parser;
pub mod prelude;
pub mod reducible;
pub mod products;
pub mod region;
pub mod registry;
pub mod relooper;
pub mod state;
pub mod globals;
pub mod graph;
pub mod ground;
pub mod calls;
pub mod construction;
pub mod control;
pub mod cycles;
pub mod definitions;
pub mod dispatch;
pub mod egal;
pub mod elements;
pub mod emit;
pub mod emit_spec;
pub mod env;
pub mod errors;
pub mod evaluation;
pub mod fixture;
pub mod frames;
pub mod frontend;
pub mod gc;
pub mod handlers;
pub mod health;
pub mod heights;
pub mod instances;
pub mod instantiate;
pub mod interp;
pub mod interp_spec;
pub mod identity;
pub mod indexing;
pub mod intrinsics;
pub mod lexer;
pub mod loader;
pub mod lowering;
pub mod meaning;
pub mod meets;
pub mod members;
pub mod memory;
pub mod module;
pub mod object;
pub mod once;
pub mod operators;
pub mod order;
pub mod types;
pub mod typewalk;
pub mod uniquing;
pub mod unions;
pub mod value;
pub mod slots;
pub mod sources;
pub mod startup;
pub mod stores;
pub mod structs;
pub mod structured;
pub mod survival;
pub mod subtype;
pub mod subtype_spec;
pub mod symbol;
pub mod wasm;
pub mod varargs;
pub mod wheres;
pub mod words;
pub mod writes;
