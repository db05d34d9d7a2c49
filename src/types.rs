use vstd::prelude::*;

verus! {

/// The types of the language: scalar primitives, function and program
/// types, and the placeholders used while inference is in progress.
#[derive(Debug, PartialEq, Eq, Hash)]
pub enum Type {
    Int64,
    Int32,
    UInt64,
    UInt32,
    Float64,
    Float32,
    String,
    Bool,
    Function(FunctionType),
    Program,
    Unknown,
    Nil,
    TypeVar(u32),
}

/// Signature of a function: positional parameter types and a return type.
#[derive(Debug, PartialEq, Eq, Hash)]
pub struct FunctionType {
    pub params_t: Vec<Type>,
    pub return_t: Box<Type>,
}

/// A scalar value type: the only types a value of the language can have.
pub open spec fn is_primitive(t: Type) -> bool {
    match t {
        Type::Int64 | Type::Int32 | Type::UInt64 | Type::UInt32 | Type::Float64 | Type::Float32
        | Type::String | Type::Bool => true,
        _ => false,
    }
}

/// A primitive type on which arithmetic and comparison are defined.
pub open spec fn is_numeric(t: Type) -> bool {
    is_primitive(t) && t != Type::String && t != Type::Bool
}

/// A placeholder that must never survive a successful check.
pub open spec fn is_placeholder(t: Type) -> bool {
    t is Unknown || t is TypeVar
}

pub fn is_primitive_type(t: &Type) -> (r: bool)
    ensures
        r == is_primitive(*t),
{
    match t {
        Type::Int64 | Type::Int32 | Type::UInt64 | Type::UInt32 | Type::Float64 | Type::Float32
        | Type::String | Type::Bool => true,
        _ => false,
    }
}

pub fn is_numeric_type(t: &Type) -> (r: bool)
    ensures
        r == is_numeric(*t),
{
    match t {
        Type::Int64 | Type::Int32 | Type::UInt64 | Type::UInt32 | Type::Float64
        | Type::Float32 => true,
        _ => false,
    }
}

/// An exact copy of a primitive type.
pub fn copy_primitive(t: &Type) -> (r: Type)
    requires
        is_primitive(*t),
    ensures
        r == *t,
{
    match t {
        Type::Int64 => Type::Int64,
        Type::Int32 => Type::Int32,
        Type::UInt64 => Type::UInt64,
        Type::UInt32 => Type::UInt32,
        Type::Float64 => Type::Float64,
        Type::Float32 => Type::Float32,
        Type::String => Type::String,
        _ => Type::Bool,
    }
}

/// Whether two types are the same primitive type.
pub fn same_primitive(a: &Type, b: &Type) -> (r: bool)
    ensures
        r == (is_primitive(*a) && *a == *b),
{
    match (a, b) {
        (Type::Int64, Type::Int64) => true,
        (Type::Int32, Type::Int32) => true,
        (Type::UInt64, Type::UInt64) => true,
        (Type::UInt32, Type::UInt32) => true,
        (Type::Float64, Type::Float64) => true,
        (Type::Float32, Type::Float32) => true,
        (Type::String, Type::String) => true,
        (Type::Bool, Type::Bool) => true,
        _ => false,
    }
}

} // verus!
