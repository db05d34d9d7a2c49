use vstd::prelude::*;

use crate::symbol::Symbol;
use crate::types::{is_placeholder, Type};

verus! {

pub type Block = Vec<Stmt>;

/// The syntax node that defines a binding.
#[derive(Debug, Clone, PartialEq, Eq)]
pub enum Node {
    Program(Symbol),
    Func(String),
    Param(String),
    With(Symbol),
    Local(Symbol),
}

/// Resolution state of one node whose type is being inferred.
#[derive(Debug)]
pub struct Frame {
    pub progress: i32,
    pub total: i32,
    pub checked: bool,
    pub node: Node,
    pub type_t: Type,
}

impl Frame {
    /// Progress never exceeds the number of parts to resolve, and a checked
    /// frame has resolved all of them to a concrete type.
    pub open spec fn wf(&self) -> bool {
        &&& 0 <= self.progress <= self.total
        &&& self.checked ==> self.progress == self.total && !is_placeholder(self.type_t)
    }
}

pub fn new_frame(node: Node, type_t: Type, total: i32, checked: bool) -> (r: Frame)
    ensures
        r.progress == 0,
        r.total == total,
        r.checked == checked,
        r.node == node,
        r.type_t == type_t,
{
    Frame { progress: 0, total, checked, node, type_t }
}

impl Frame {
    pub fn get_prog(&self) -> (r: i32)
        ensures
            r == self.progress,
    {
        self.progress
    }

    pub fn set_prog(&mut self, progress: i32)
        requires
            !old(self).checked,
        ensures
            *final(self) == (Frame { progress, ..*old(self) }),
    {
        self.progress = progress;
    }

    /// One more part has resolved.
    pub fn inc_prog(&mut self)
        requires
            old(self).wf(),
            !old(self).checked,
            old(self).progress < old(self).total,
        ensures
            *final(self) == (Frame { progress: (old(self).progress + 1) as i32, ..*old(self) }),
            final(self).wf(),
    {
        self.progress = self.progress + 1;
    }

    pub fn get_total(&self) -> (r: i32)
        ensures
            r == self.total,
    {
        self.total
    }

    pub fn set_total(&mut self, total: i32)
        requires
            !old(self).checked,
        ensures
            *final(self) == (Frame { total, ..*old(self) }),
    {
        self.total = total;
    }

    pub fn get_type(&self) -> (r: &Type)
        ensures
            *r == self.type_t,
    {
        &self.type_t
    }

    /// The type may change only while the frame is unchecked.
    pub fn set_type(&mut self, type_t: Type)
        requires
            !old(self).checked,
        ensures
            *final(self) == (Frame { type_t, ..*old(self) }),
    {
        self.type_t = type_t;
    }

    /// Reaching `progress == total` with a concrete type is the only way to
    /// become checked.
    pub fn set_checked(&mut self)
        requires
            old(self).wf(),
            old(self).progress == old(self).total,
            !is_placeholder(old(self).type_t),
        ensures
            *final(self) == (Frame { checked: true, ..*old(self) }),
            final(self).wf(),
    {
        self.checked = true;
    }

    pub fn get_checked(&self) -> (r: bool)
        ensures
            r == self.checked,
    {
        self.checked
    }
}

/// A whole source file: declarations, the program, more declarations.
#[derive(Debug)]
pub struct Root {
    pub preblock: Block,
    pub program: Program,
    pub postblock: Block,
}

#[derive(Debug)]
pub enum Program {
    NoWith(Symbol, Block),
    With(Symbol, With, Block),
}

pub type With = Vec<WithVar>;

/// A captured binding: read-only or read-write.
#[derive(Debug, Clone, PartialEq, Eq)]
pub enum WithVar {
    Imm(Symbol),
    Mut(Symbol),
}

/// Binary operators: arithmetic, then comparison.
#[derive(Debug, Clone, Copy, PartialEq, Eq, Structural)]
pub enum BinOp {
    Add,
    Sub,
    Mult,
    Div,
    Lt,
    Gt,
    Leq,
    Geq,
    Eq,
    Neq,
}

pub open spec fn is_comparison(op: BinOp) -> bool {
    !(op is Add || op is Sub || op is Mult || op is Div)
}

#[derive(Debug)]
pub enum Expr {
    Term(Box<Term>),
    Binary(BinOp, Box<Expr>, Box<Expr>),
    Call(Symbol, Args),
}

#[derive(Debug)]
pub enum Term {
    Id(String),
    Num(i32),
    Expr(Box<Expr>),
}

#[derive(Debug, Clone, Copy, PartialEq, Eq, Structural)]
pub enum AssignOp {
    Assign,
    AddAssign,
    SubAssign,
    MultAssign,
    DivAssign,
}

/// One `if` / `else if` case: its condition and its body.
#[derive(Debug)]
pub struct Branch {
    pub cond: Expr,
    pub block: Block,
}

/// Statements. A `let` carries its annotation, `Unknown` when there is none.
#[derive(Debug)]
pub enum Stmt {
    Assign(Symbol, Type, Box<Expr>),
    Reassign(Symbol, AssignOp, Box<Expr>),
    Call(Symbol, Args),
    If(Vec<Branch>, Option<Block>),
    Return(Box<Expr>),
    FuncDef(Box<Func>),
}

pub type Args = Vec<Expr>;

pub type Params = Vec<Param>;

#[derive(Debug)]
pub struct Param {
    pub type_t: Type,
    pub name: String,
}

#[derive(Debug)]
pub struct Func {
    pub ret_t: Type,
    pub params: Params,
    pub with: With,
    pub ident: String,
    pub block: Block,
}

} // verus!
