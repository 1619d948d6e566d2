//! Functions that run natively when called.

use vstd::prelude::*;
use crate::access;
use crate::bytes::{decimal, decimal_text, push_bytes, push_text, text, utf8};
use crate::errors;
use crate::id;
use crate::ir::Native;
use crate::module;
use crate::object::type_of;
use crate::state::{Runtime, State, Value};
use crate::structs::{is_a, raw_list};
use crate::types::svec_of;
use crate::value::box_bool;

verus! {

/// The message for a call with the wrong number of arguments.
pub open spec fn arity_text(name: &str, n: int) -> Seq<u8> {
    utf8(name) + utf8(": expected ") + decimal(n as nat) + utf8(" arguments")
}

impl State {
    /// The outcome of a call with the wrong number of arguments.
    pub open spec fn bad_arity(self, name: &str, n: int) -> (State, Result<Value, Value>) {
        let (s, e) = self.error_exception(arity_text(name, n));
        (s, Err(Value(e)))
    }

    /// A simple vector of the arguments.
    pub open spec fn f_svec(self, args: Seq<Value>) -> (State, Result<Value, Value>) {
        let (s, v) = self.make_svec(args.map_values(|a: Value| a.0));
        (s, Ok(Value(v)))
    }

    /// The type of the argument.
    pub open spec fn f_typeof(self, args: Seq<Value>) -> (State, Result<Value, Value>) {
        if args.len() != 1 {
            self.bad_arity("typeof", 1)
        } else {
            (self, Ok(Value(self.tag(args[0].0))))
        }
    }

    /// Whether the first argument is an instance of the second.
    pub open spec fn f_isa(self, args: Seq<Value>) -> (State, Result<Value, Value>) {
        if args.len() != 2 {
            self.bad_arity("isa", 2)
        } else {
            let (s, b) = self.is_a(args[0].0, args[1].0);
            (s, Ok(Value(s.box_bool(b))))
        }
    }

    /// The argument, as an exception.
    pub open spec fn f_throw(self, args: Seq<Value>) -> (State, Result<Value, Value>) {
        if args.len() != 1 {
            self.bad_arity("throw", 1)
        } else {
            (self, Err(args[0]))
        }
    }

    /// The second argument, if it is an instance of the first.
    pub open spec fn f_convert(self, args: Seq<Value>) -> (State, Result<Value, Value>) {
        if args.len() != 2 {
            self.bad_arity("convert", 2)
        } else {
            let (s, b) = self.is_a(args[1].0, args[0].0);
            if b {
                (s, Ok(args[1]))
            } else {
                let (s1, e) = s.error_exception(
                    utf8("convert: no method (base/ convert not loaded)"),
                );
                (s1, Err(Value(e)))
            }
        }
    }

    /// Nothing: a global is declared by its first assignment.
    pub open spec fn f_declare_global(self, args: Seq<Value>) -> (State, Result<Value, Value>) {
        if args.len() != 3 {
            self.bad_arity("declare_global", 3)
        } else {
            (self, Ok(Value(self.singleton(id::NOTHING))))
        }
    }

    /// `Any`: bindings are not restricted to a type.
    pub open spec fn f_get_binding_type(self, args: Seq<Value>) -> (State, Result<Value, Value>) {
        if args.len() != 2 {
            self.bad_arity("get_binding_type", 2)
        } else {
            (self, Ok(Value(self.builtin(id::ANY))))
        }
    }

    /// Binds the name that is the second argument to the third in the main module.
    pub open spec fn f_setglobal(self, args: Seq<Value>) -> (State, Result<Value, Value>) {
        if args.len() != 3 {
            self.bad_arity("setglobal!", 3)
        } else {
            match self.set_global(self.main, args[1].0, args[2].0) {
                (s, Ok(_)) => (s, Ok(args[2])),
                (s, Err(e)) => (s, Err(e)),
            }
        }
    }

    /// The outcome of a call of a native function.
    #[verifier::opaque]
    pub open spec fn run_native(self, f: Native, args: Seq<Value>) -> (
        State,
        Result<Value, Value>,
    ) {
        match f {
            Native::Svec => self.f_svec(args),
            Native::Typeof => self.f_typeof(args),
            Native::Isa => self.f_isa(args),
            Native::Throw => self.f_throw(args),
            Native::Convert => self.f_convert(args),
            Native::DeclareGlobal => self.f_declare_global(args),
            Native::GetBindingType => self.f_get_binding_type(args),
            Native::SetGlobal => self.f_setglobal(args),
        }
    }
}

/// The exception of a call with the wrong number of arguments.
fn bad_arity(rt: &mut Runtime, name: &str, n: u64) -> (r: Result<Value, Value>)
    ensures
        (final(rt)@, r) == old(rt)@.bad_arity(name, n as int),
{
    let mut m: Vec<u8> = text(name);
    push_text(&mut m, ": expected ");
    let d: Vec<u8> = decimal_text(n);
    push_bytes(&mut m, d.as_slice());
    push_text(&mut m, " arguments");
    Err(errors::wrap_msg(rt, m))
}

/// A simple vector of the arguments.
pub fn f_svec(rt: &mut Runtime, args: &Vec<Value>) -> (r: Result<Value, Value>)
    ensures
        (final(rt)@, r) == old(rt)@.f_svec(args@),
{
    let elems: Vec<u32> = raw_list(args);
    Ok(Value(svec_of(rt, &elems)))
}

/// The type of the argument.
pub fn f_typeof(rt: &mut Runtime, args: &Vec<Value>) -> (r: Result<Value, Value>)
    ensures
        (final(rt)@, r) == old(rt)@.f_typeof(args@),
{
    if args.len() != 1 {
        return bad_arity(rt, "typeof", 1);
    }
    Ok(Value(type_of(rt, args[0])))
}

/// Whether the first argument is an instance of the second.
pub fn f_isa(rt: &mut Runtime, args: &Vec<Value>) -> (r: Result<Value, Value>)
    ensures
        (final(rt)@, r) == old(rt)@.f_isa(args@),
{
    if args.len() != 2 {
        return bad_arity(rt, "isa", 2);
    }
    let b: bool = is_a(rt, args[0], args[1].0);
    Ok(box_bool(rt, b))
}

/// Throws the argument.
pub fn f_throw(rt: &mut Runtime, args: &Vec<Value>) -> (r: Result<Value, Value>)
    ensures
        (final(rt)@, r) == old(rt)@.f_throw(args@),
{
    if args.len() != 1 {
        return bad_arity(rt, "throw", 1);
    }
    Err(args[0])
}

/// The second argument, if it is an instance of the first.
pub fn f_convert(rt: &mut Runtime, args: &Vec<Value>) -> (r: Result<Value, Value>)
    ensures
        (final(rt)@, r) == old(rt)@.f_convert(args@),
{
    if args.len() != 2 {
        return bad_arity(rt, "convert", 2);
    }
    if is_a(rt, args[1], args[0].0) {
        return Ok(args[1]);
    }
    Err(errors::error_exception(rt, "convert: no method (base/ convert not loaded)"))
}

/// Declares a global: nothing to do.
pub fn f_declare_global(rt: &mut Runtime, args: &Vec<Value>) -> (r: Result<Value, Value>)
    ensures
        (final(rt)@, r) == old(rt)@.f_declare_global(args@),
{
    if args.len() != 3 {
        return bad_arity(rt, "declare_global", 3);
    }
    Ok(Value(access::nothing_instance(rt)))
}

/// The type of a binding.
pub fn f_get_binding_type(rt: &mut Runtime, args: &Vec<Value>) -> (r: Result<Value, Value>)
    ensures
        (final(rt)@, r) == old(rt)@.f_get_binding_type(args@),
{
    if args.len() != 2 {
        return bad_arity(rt, "get_binding_type", 2);
    }
    Ok(Value(access::builtin(rt, id::ANY)))
}

/// Binds a name in the main module.
pub fn f_setglobal(rt: &mut Runtime, args: &Vec<Value>) -> (r: Result<Value, Value>)
    ensures
        (final(rt)@, r) == old(rt)@.f_setglobal(args@),
{
    if args.len() != 3 {
        return bad_arity(rt, "setglobal!", 3);
    }
    let main: Value = Value(module::main_offset(rt));
    match module::set_global(rt, main, args[1].0, args[2]) {
        Ok(_) => Ok(args[2]),
        Err(e) => Err(e),
    }
}

/// Calls a native function.
pub(crate) fn run_native(rt: &mut Runtime, f: Native, args: &Vec<Value>) -> (r: Result<
    Value,
    Value,
>)
    ensures
        (final(rt)@, r) == old(rt)@.run_native(f, args@),
{
    proof {
        reveal(State::run_native);
    }
    match f {
        Native::Svec => f_svec(rt, args),
        Native::Typeof => f_typeof(rt, args),
        Native::Isa => f_isa(rt, args),
        Native::Throw => f_throw(rt, args),
        Native::Convert => f_convert(rt, args),
        Native::DeclareGlobal => f_declare_global(rt, args),
        Native::GetBindingType => f_get_binding_type(rt, args),
        Native::SetGlobal => f_setglobal(rt, args),
    }
}

} // verus!
