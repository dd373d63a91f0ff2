//! Runtime values and declared types. A value is the actual content of a
//! variable, a type is the annotation that the variable was declared with.

use vstd::prelude::*;
use crate::ast::{Stmt, StmtV, stmts_view, duplicate_params, duplicate_stmts};

verus! {

/// The declared type of a variable.
#[derive(Debug, Clone, Copy, PartialEq, Eq, Structural)]
pub enum Type {
    Int,
    Float,
    Bool,
}

/// A function parameter: its name and declared type.
#[derive(Debug, PartialEq)]
pub struct Param {
    pub name: String,
    pub param_type: Type,
}

/// The mathematical counterpart of a [`Param`].
pub struct ParamV {
    pub name: Seq<char>,
    pub param_type: Type,
}

impl View for Param {
    type V = ParamV;

    open spec fn view(&self) -> ParamV {
        ParamV { name: self.name@, param_type: self.param_type }
    }
}

pub open spec fn params_view(ps: Seq<Param>) -> Seq<ParamV> {
    ps.map_values(|p: Param| p@)
}

/// A runtime value. A float is held as the bit pattern of an IEEE 754
/// binary64 number: the library moves it around and hands it out to be
/// computed on, but does no floating-point arithmetic itself.
#[derive(Debug, PartialEq)]
pub enum Value {
    Int(i64),
    Float(u64),
    Bool(bool),
    Function { parameters: Vec<Param>, return_type: Type, body: Vec<Stmt> },
    Void,
}

/// The mathematical counterpart of a [`Value`].
pub enum ValueV {
    Int(i64),
    Float(u64),
    Bool(bool),
    Function { parameters: Seq<ParamV>, return_type: Type, body: Seq<StmtV> },
    Void,
}

impl View for Value {
    type V = ValueV;

    open spec fn view(&self) -> ValueV {
        match self {
            Value::Int(n) => ValueV::Int(*n),
            Value::Float(bits) => ValueV::Float(*bits),
            Value::Bool(b) => ValueV::Bool(*b),
            Value::Function { parameters, return_type, body } => ValueV::Function {
                parameters: params_view(parameters@),
                return_type: *return_type,
                body: stmts_view(body@),
            },
            Value::Void => ValueV::Void,
        }
    }
}

/// What storing a value into a variable of some declared type takes.
#[derive(Debug, Clone, Copy, PartialEq, Eq, Structural)]
pub enum Check {
    /// The value has the declared type and is stored as it is.
    Accept,
    /// An int stored into a float variable: it is first converted to a float.
    Widen(i64),
    /// A float cannot be stored into an int variable (that would need a cast).
    FloatIntoInt,
    /// Any other value of the wrong type.
    Mismatch,
}

/// What storing `v` into a variable declared as `t` takes: ints widen to
/// floats, nothing narrows, and every other type must match exactly.
pub open spec fn check_spec(t: Type, v: ValueV) -> Check {
    match (t, v) {
        (Type::Int, ValueV::Int(_)) => Check::Accept,
        (Type::Float, ValueV::Float(_)) => Check::Accept,
        (Type::Bool, ValueV::Bool(_)) => Check::Accept,
        (Type::Float, ValueV::Int(n)) => Check::Widen(n),
        (Type::Int, ValueV::Float(_)) => Check::FloatIntoInt,
        _ => Check::Mismatch,
    }
}

impl Type {
    /// Checks a value against this declared type, for a declaration, an
    /// assignment, an argument or a returned value: the value is accepted,
    /// to be widened from an int to a float, or refused.
    pub fn try_check_and_convert(&self, value: &Value) -> (r: Check)
        ensures
            r == check_spec(*self, value@),
    {
        match (self, value) {
            (Type::Int, Value::Int(_)) => Check::Accept,
            (Type::Float, Value::Float(_)) => Check::Accept,
            (Type::Bool, Value::Bool(_)) => Check::Accept,
            (Type::Float, Value::Int(n)) => Check::Widen(*n),
            (Type::Int, Value::Float(_)) => Check::FloatIntoInt,
            _ => Check::Mismatch,
        }
    }

    /// Checks a value that this declared type takes: one of the type, or an
    /// int for a float. It is accepted as it is, or to be widened to a float.
    pub fn check_and_convert(&self, value: &Value) -> (r: Check)
        requires
            check_spec(*self, value@) is Accept || check_spec(*self, value@) is Widen,
        ensures
            r == check_spec(*self, value@),
    {
        self.try_check_and_convert(value)
    }
}

impl Value {
    /// A copy of this value.
    pub fn duplicate(&self) -> (r: Value)
        ensures
            r@ == self@,
    {
        match self {
            Value::Int(n) => Value::Int(*n),
            Value::Float(bits) => Value::Float(*bits),
            Value::Bool(b) => Value::Bool(*b),
            Value::Function { parameters, return_type, body } => Value::Function {
                parameters: duplicate_params(parameters),
                return_type: *return_type,
                body: duplicate_stmts(body),
            },
            Value::Void => Value::Void,
        }
    }
}

} // verus!
