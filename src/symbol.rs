use vstd::prelude::*;

use crate::ast::{Func, Node, Program, Stmt};
use crate::types::{copy_primitive, is_primitive, is_primitive_type, FunctionType, Type};

verus! {

/// An interned identifier, compared by name.
#[derive(Debug, Clone, PartialEq, Eq, Hash)]
pub struct Symbol {
    pub ident: String,
}

pub fn new_symbol(ident: String) -> (r: Symbol)
    ensures
        r.ident == ident,
{
    Symbol { ident }
}

/// A binding record: a type and the node that defines it.
#[derive(Debug)]
pub struct Var {
    pub type_t: Type,
    pub node: Node,
}

pub fn new_var(type_t: Type, node: Node) -> (r: Var)
    ensures
        r.type_t == type_t,
        r.node == node,
{
    Var { type_t, node }
}

/// What registering a declaration produces: a symbol and its binding.
#[derive(Debug)]
pub struct IdentMapping {
    pub symbol: Symbol,
    pub var: Var,
}

pub fn new_identmapping(symbol: Symbol, var: Var) -> (r: IdentMapping)
    ensures
        r.symbol == symbol,
        r.var == var,
{
    IdentMapping { symbol, var }
}

/// `t` is the function type that `f` declares.
pub open spec fn is_signature_of(t: Type, f: Func) -> bool {
    &&& t is Function
    &&& t->Function_0.params_t@.len() == f.params@.len()
    &&& forall|i: int|
        0 <= i < f.params@.len() ==> #[trigger] t->Function_0.params_t@[i] == f.params@[i].type_t
    &&& *t->Function_0.return_t == f.ret_t
}

/// A signature is usable when every parameter and the result are primitive.
pub open spec fn signature_valid(f: Func) -> bool {
    &&& is_primitive(f.ret_t)
    &&& forall|i: int| 0 <= i < f.params@.len() ==> is_primitive(#[trigger] f.params@[i].type_t)
}

/// Builds the function type that `f` declares, when its signature is valid.
pub fn build_signature(f: &Func) -> (r: Option<Type>)
    ensures
        r is Some <==> signature_valid(*f),
        r matches Some(t) ==> is_signature_of(t, *f),
{
    if !is_primitive_type(&f.ret_t) {
        return None;
    }
    let mut params_t: Vec<Type> = Vec::new();
    let mut i: usize = 0;
    while i < f.params.len()
        invariant
            i <= f.params@.len(),
            params_t@.len() == i,
            forall|j: int| 0 <= j < i ==> params_t@[j] == f.params@[j].type_t,
            forall|j: int| 0 <= j < i ==> is_primitive(#[trigger] f.params@[j].type_t),
        decreases f.params@.len() - i,
    {
        if !is_primitive_type(&f.params[i].type_t) {
            return None;
        }
        params_t.push(copy_primitive(&f.params[i].type_t));
        i += 1;
    }
    let t = Type::Function(
        FunctionType { params_t, return_t: Box::new(copy_primitive(&f.ret_t)) },
    );
    Some(t)
}

/// Declarations that introduce a name.
pub trait Symbolic {
    fn get_symbol(&self) -> Option<IdentMapping>;
}

impl Symbolic for Program {
    /// The program's name, bound to the program type.
    fn get_symbol(&self) -> (r: Option<IdentMapping>)
        ensures
            r matches Some(m) && m.var.type_t == Type::Program && m.symbol == program_name(*self)
                && m.var.node == Node::Program(program_name(*self)),
    {
        let symbol = match self {
            Program::NoWith(s, _) => Symbol { ident: s.ident.clone() },
            Program::With(s, _, _) => Symbol { ident: s.ident.clone() },
        };
        let node = Node::Program(Symbol { ident: symbol.ident.clone() });
        Some(IdentMapping { symbol, var: Var { type_t: Type::Program, node } })
    }
}

pub open spec fn program_name(p: Program) -> Symbol {
    match p {
        Program::NoWith(s, _) => s,
        Program::With(s, _, _) => s,
    }
}

impl Symbolic for Stmt {
    /// A `let` yields its symbol with the annotated type (`Unknown` when the
    /// type is left to inference); a function definition yields its name with
    /// its signature, when that signature is valid. Other statements declare
    /// nothing.
    fn get_symbol(&self) -> (r: Option<IdentMapping>)
        ensures
            match *self {
                Stmt::Assign(s, annot, _) => r matches Some(m) && m.symbol == s && m.var.node
                    == Node::Local(s) && (if is_primitive(annot) {
                    m.var.type_t == annot
                } else {
                    m.var.type_t == Type::Unknown
                }),
                Stmt::FuncDef(f) => (r is Some <==> signature_valid(*f)) && (r matches Some(m)
                    ==> m.symbol.ident == f.ident && is_signature_of(m.var.type_t, *f)
                    && m.var.node == Node::Func(f.ident)),
                _ => r is None,
            },
    {
        match self {
            Stmt::Assign(s, annot, _) => {
                let type_t = if is_primitive_type(annot) {
                    copy_primitive(annot)
                } else {
                    Type::Unknown
                };
                let node = Node::Local(Symbol { ident: s.ident.clone() });
                Some(IdentMapping { symbol: Symbol { ident: s.ident.clone() }, var: Var { type_t, node } })
            },
            Stmt::FuncDef(f) => match build_signature(f) {
                Some(type_t) => Some(
                    IdentMapping {
                        symbol: Symbol { ident: f.ident.clone() },
                        var: Var { type_t, node: Node::Func(f.ident.clone()) },
                    },
                ),
                None => None,
            },
            _ => None,
        }
    }
}

} // verus!
