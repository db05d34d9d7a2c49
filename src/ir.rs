use vstd::prelude::*;

use crate::ast::BinOp;
use crate::symbol::Symbol;
use crate::types::Type;

verus! {

/// The flat instruction set between the checked tree and target text.
/// Expressions are runs of `Term` and `Eval` nodes; every other node is a
/// statement or a bracket of structure.
#[derive(Debug, PartialEq)]
pub enum IRNode {
    Label(Label),
    Assign(Assign),
    Reassign(Reassign),
    If,
    IfCase,
    ElseIfCase,
    ElseCase,
    EndIf,
    Term(Term),
    Eval(Func),
    Return,
    CallStmt,
    GlobalSection,
    EndGlobalSection,
    FuncDef(FuncDef),
    Param(Param),
    EndFuncDef,
}

#[derive(Debug, PartialEq)]
pub struct Label(pub String);

/// Declares `symbol` with the value of the expression run before it.
#[derive(Debug, PartialEq)]
pub struct Assign {
    pub type_t: Type,
    pub symbol: Symbol,
}

/// Stores the value of the expression run before it into `symbol`.
#[derive(Debug, PartialEq)]
pub struct Reassign {
    pub type_t: Type,
    pub symbol: Symbol,
}

/// One operand: a literal or a name.
#[derive(Debug, PartialEq)]
pub struct Term {
    pub type_t: Type,
    pub value: Value,
}

/// Literal payloads. A floating literal is kept as its decimal text.
#[derive(Debug, PartialEq)]
pub enum Value {
    Int32(i32),
    Int64(i64),
    UInt32(u32),
    UInt64(u64),
    Float32(String),
    Float64(String),
    Bool(bool),
    Id(String),
}

/// An operator, or a call of a function with its number of arguments.
#[derive(Debug, PartialEq)]
pub enum Func {
    Op(BinOp),
    DefFunc(Symbol, usize),
}

/// Opens a function definition: its name, its result type and its number
/// of parameters, whose `Param` nodes follow it in order.
#[derive(Debug, PartialEq)]
pub struct FuncDef {
    pub symbol: Symbol,
    pub return_t: Type,
    pub arity: usize,
}

/// One parameter of the function definition before it.
#[derive(Debug, PartialEq)]
pub struct Param {
    pub name: String,
    pub type_t: Type,
}

pub open spec fn is_expr_ir(n: IRNode) -> bool {
    n is Term || n is Eval
}

} // verus!
