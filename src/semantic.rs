use vstd::prelude::*;

use crate::ast::{
    is_comparison, new_frame, AssignOp, BinOp, Block, Branch, Expr, Frame, Func, Node, Param, Program,
    Root, Stmt, Term, WithVar,
};
use crate::symbol::{build_signature, is_signature_of, signature_valid, Symbol};
use crate::types::{
    copy_primitive, is_numeric, is_numeric_type, is_placeholder, is_primitive, is_primitive_type,
    same_primitive, Type,
};

verus! {

/// Why a program was rejected: the first name, type or resolution error.
#[derive(Debug, PartialEq, Eq)]
pub enum SemanticError {
    /// A name with no binding in scope.
    Undefined(String),
    /// A function name used where a value is expected.
    NotAValue(String),
    /// A call of a name that is not a function.
    NotAFunction(String),
    /// Operands of a binary operator that are not the same numeric type.
    BinaryMismatch(BinOp, Type, Type),
    /// A call with the wrong number of arguments: function, expected, found.
    ArityMismatch(String, usize, usize),
    /// A call argument of the wrong type: function, position, expected, found.
    ArgMismatch(String, usize, Type, Type),
    /// A `let` whose initializer differs from its annotation.
    AnnotationMismatch(String, Type, Type),
    /// A `let` annotated with a type that no value can have.
    InvalidAnnotation(String),
    /// A reassignment whose value differs from the binding's type.
    AssignMismatch(String, Type, Type),
    /// A compound assignment to a non-numeric binding.
    NotNumeric(String),
    /// A reassignment of a read-only binding.
    Immutable(String),
    /// A condition that is not `Bool`.
    ConditionNotBool(Type),
    /// A `return` outside a function.
    MisplacedReturn,
    /// A `return` whose value differs from the declared result.
    ReturnMismatch(Type, Type),
    /// A function defined inside a block.
    NestedFunction(String),
    /// A function signature with a non-primitive parameter or result.
    InvalidSignature(String),
    /// A statement other than a declaration at the top level.
    TopLevelStatement,
    /// Two top-level declarations of one name.
    Duplicate(String),
    /// A value declaration that depends on itself.
    Cyclic(String),
}

/// One live binding of a scope.
#[derive(Debug)]
pub struct Binding {
    pub symbol: Symbol,
    pub type_t: Type,
    pub mutable: bool,
}

/// A binding's type is a primitive, or a function signature over primitives.
pub open spec fn binding_wf(b: Binding) -> bool {
    is_primitive(b.type_t) || (b.type_t matches Type::Function(ft) && is_primitive(*ft.return_t)
        && forall|i: int| 0 <= i < ft.params_t@.len() ==> is_primitive(#[trigger] ft.params_t@[i]))
}

pub open spec fn env_wf(env: Seq<Binding>) -> bool {
    forall|i: int| 0 <= i < env.len() ==> binding_wf(#[trigger] env[i])
}

/// The innermost (latest) binding of `name`, as an index into `env`.
pub open spec fn lookup(env: Seq<Binding>, name: Seq<char>) -> Option<int>
    decreases env.len(),
{
    if env.len() == 0 {
        None
    } else if env.last().symbol.ident@ == name {
        Some(env.len() - 1)
    } else {
        lookup(env.drop_last(), name)
    }
}

/// The type of an expression under `env`, or the first error in it
/// (left operand before right, arguments in order). Functions are called by
/// name and passed nowhere as values: a function is never a runtime value,
/// so its name used as an operand is `NotAValue`.
pub open spec fn expr_result(e: Expr, env: Seq<Binding>) -> Result<Type, SemanticError>
    decreases e, 0nat,
{
    match e {
        Expr::Term(t) => match *t {
            Term::Id(n) => match lookup(env, n@) {
                None => Err(SemanticError::Undefined(n)),
                Some(i) => if is_primitive(env[i].type_t) {
                    Ok(env[i].type_t)
                } else {
                    Err(SemanticError::NotAValue(n))
                },
            },
            Term::Num(_) => Ok(Type::Int32),
            Term::Expr(inner) => expr_result(*inner, env),
        },
        Expr::Binary(op, l, r) => match expr_result(*l, env) {
            Err(x) => Err(x),
            Ok(lt) => match expr_result(*r, env) {
                Err(x) => Err(x),
                Ok(rt) => if is_numeric(lt) && lt == rt {
                    Ok(if is_comparison(op) { Type::Bool } else { lt })
                } else {
                    Err(SemanticError::BinaryMismatch(op, lt, rt))
                },
            },
        },
        Expr::Call(f, args) => call_result(f, args@, env),
    }
}

/// The result type of calling `f` with `args`, or the first error.
pub open spec fn call_result(f: Symbol, args: Seq<Expr>, env: Seq<Binding>) -> Result<Type, SemanticError>
    decreases args, args.len() + 1,
{
    match lookup(env, f.ident@) {
        None => Err(SemanticError::Undefined(f.ident)),
        Some(i) => match env[i].type_t {
            Type::Function(ft) => if args.len() != ft.params_t@.len() {
                Err(SemanticError::ArityMismatch(f.ident, ft.params_t@.len() as usize, args.len() as usize))
            } else {
                match args_result(f, args, ft.params_t@, env, 0) {
                    Err(x) => Err(x),
                    Ok(_) => Ok(*ft.return_t),
                }
            },
            _ => Err(SemanticError::NotAFunction(f.ident)),
        },
    }
}

/// Arguments from position `i` on each have the parameter's type.
pub open spec fn args_result(f: Symbol, args: Seq<Expr>, params: Seq<Type>, env: Seq<Binding>, i: nat) -> Result<(), SemanticError>
    decreases args, args.len() - i,
{
    if i >= args.len() || i >= params.len() {
        Ok(())
    } else {
        match expr_result(args[i as int], env) {
            Err(x) => Err(x),
            Ok(t) => if t == params[i as int] {
                args_result(f, args, params, env, i + 1)
            } else {
                Err(SemanticError::ArgMismatch(f.ident, i as usize, params[i as int], t))
            },
        }
    }
}

/// A binding that `lookup` finds lies in `env` and carries the name.
pub proof fn lemma_lookup_found(env: Seq<Binding>, name: Seq<char>)
    ensures
        lookup(env, name) matches Some(i) ==> 0 <= i < env.len() && env[i].symbol.ident@ == name,
    decreases env.len(),
{
    if env.len() > 0 && env.last().symbol.ident@ != name {
        lemma_lookup_found(env.drop_last(), name);
    }
}

/// Finds the innermost binding of `name`.
pub fn find_binding(env: &Vec<Binding>, name: &String) -> (r: Option<usize>)
    ensures
        match lookup(env@, name@) {
            None => r is None,
            Some(i) => r is Some && r->0 as int == i,
        },
        r matches Some(i) ==> i < env@.len(),
{
    proof { lemma_lookup_found(env@, name@); }
    let mut k: usize = env.len();
    assert(env@.subrange(0, k as int) =~= env@);
    while k > 0
        invariant
            k <= env@.len(),
            lookup(env@, name@) == lookup(env@.subrange(0, k as int), name@),
        decreases k,
    {
        assert(env@.subrange(0, k as int).drop_last() =~= env@.subrange(0, k - 1));
        if env[k - 1].symbol.ident == *name {
            return Some(k - 1);
        }
        k -= 1;
    }
    None
}

/// Infers the type of `e`, or reports the first error in it.
pub fn check_expr(e: &Expr, env: &Vec<Binding>) -> (r: Result<Type, SemanticError>)
    requires
        env_wf(env@),
    ensures
        r == expr_result(*e, env@),
        r matches Ok(t) ==> is_primitive(t),
    decreases e, 0nat,
{
    match e {
        Expr::Term(t) => match &**t {
            Term::Id(n) => match find_binding(env, n) {
                Some(i) if is_primitive_type(&env[i].type_t) => {
                    proof { lemma_lookup_found(env@, n@); }
                    Ok(copy_primitive(&env[i].type_t))
                },
                None => Err(SemanticError::Undefined(n.clone())),
                Some(_) => {
                    proof { lemma_lookup_found(env@, n@); }
                    Err(SemanticError::NotAValue(n.clone()))
                },
            },
            Term::Num(_) => Ok(Type::Int32),
            Term::Expr(inner) => check_expr(inner, env),
        },
        Expr::Binary(op, l, r) => {
            let lt = match check_expr(l, env) {
                Err(x) => return Err(x),
                Ok(lt) => lt,
            };
            let rt = match check_expr(r, env) {
                Err(x) => return Err(x),
                Ok(rt) => rt,
            };
            if is_numeric_type(&lt) && same_primitive(&lt, &rt) {
                match op {
                    BinOp::Add | BinOp::Sub | BinOp::Mult | BinOp::Div => Ok(lt),
                    _ => Ok(Type::Bool),
                }
            } else {
                Err(SemanticError::BinaryMismatch(*op, lt, rt))
            }
        },
        Expr::Call(f, args) => check_call(f, args, env),
    }
}

/// Checks a call of `f` on `args` and gives its result type.
pub fn check_call(f: &Symbol, args: &Vec<Expr>, env: &Vec<Binding>) -> (r: Result<Type, SemanticError>)
    requires
        env_wf(env@),
    ensures
        r == call_result(*f, args@, env@),
        r matches Ok(t) ==> is_primitive(t),
    decreases args@, args@.len() + 1,
{
    proof { lemma_lookup_found(env@, f.ident@); }
    let i = match find_binding(env, &f.ident) {
        None => return Err(SemanticError::Undefined(f.ident.clone())),
        Some(i) => i,
    };
    assert(binding_wf(env@[i as int]));
    match &env[i].type_t {
        Type::Function(ft) => {
            if args.len() != ft.params_t.len() {
                return Err(SemanticError::ArityMismatch(f.ident.clone(), ft.params_t.len(), args.len()));
            }
            let mut k: usize = 0;
            while k < args.len()
                invariant
                    env_wf(env@),
                    i < env@.len(),
                    lookup(env@, f.ident@) == Some(i as int),
                    env@[i as int].type_t == Type::Function(*ft),
                    args@.len() == ft.params_t@.len(),
                    k <= args@.len(),
                    forall|j: int| 0 <= j < ft.params_t@.len() ==> is_primitive(#[trigger] ft.params_t@[j]),
                    args_result(*f, args@, ft.params_t@, env@, 0) == args_result(*f, args@, ft.params_t@, env@, k as nat),
                decreases args@.len() - k,
            {
                let t = match check_expr(&args[k], env) {
                    Err(x) => return Err(x),
                    Ok(t) => t,
                };
                if !same_primitive(&t, &ft.params_t[k]) {
                    return Err(SemanticError::ArgMismatch(f.ident.clone(), k, copy_primitive(&ft.params_t[k]), t));
                }
                k += 1;
            }
            Ok(copy_primitive(&ft.return_t))
        },
        _ => Err(SemanticError::NotAFunction(f.ident.clone())),
    }
}

/// The bindings after statement `s`, or the first error in it. `ret` is the
/// declared result of the enclosing function, `None` outside any function.
pub open spec fn stmt_result(s: Stmt, env: Seq<Binding>, ret: Option<Type>) -> Result<Seq<Binding>, SemanticError>
    decreases s, 0nat,
{
    match s {
        Stmt::Assign(sym, annot, e) => if !(annot is Unknown) && !is_primitive(annot) {
            Err(SemanticError::InvalidAnnotation(sym.ident))
        } else {
            match expr_result(*e, env) {
                Err(x) => Err(x),
                Ok(t) => if annot is Unknown || annot == t {
                    Ok(env.push(Binding { symbol: sym, type_t: t, mutable: true }))
                } else {
                    Err(SemanticError::AnnotationMismatch(sym.ident, annot, t))
                },
            }
        },
        Stmt::Reassign(sym, op, e) => match lookup(env, sym.ident@) {
            None => Err(SemanticError::Undefined(sym.ident)),
            Some(i) => if !is_primitive(env[i].type_t) {
                Err(SemanticError::NotAValue(sym.ident))
            } else if !env[i].mutable {
                Err(SemanticError::Immutable(sym.ident))
            } else {
                match expr_result(*e, env) {
                    Err(x) => Err(x),
                    Ok(t) => if t != env[i].type_t {
                        Err(SemanticError::AssignMismatch(sym.ident, env[i].type_t, t))
                    } else if !(op is Assign) && !is_numeric(t) {
                        Err(SemanticError::NotNumeric(sym.ident))
                    } else {
                        Ok(env)
                    },
                }
            },
        },
        Stmt::Call(f, args) => match call_result(f, args@, env) {
            Err(x) => Err(x),
            Ok(_) => Ok(env),
        },
        Stmt::If(branches, els) => match branches_result(branches@, env, ret, 0) {
            Err(x) => Err(x),
            Ok(_) => match els {
                None => Ok(env),
                Some(b) => match block_result(b@, env, ret, 0) {
                    Err(x) => Err(x),
                    Ok(_) => Ok(env),
                },
            },
        },
        Stmt::Return(e) => match ret {
            None => Err(SemanticError::MisplacedReturn),
            Some(rt) => match expr_result(*e, env) {
                Err(x) => Err(x),
                Ok(t) => if t == rt {
                    Ok(env)
                } else {
                    Err(SemanticError::ReturnMismatch(rt, t))
                },
            },
        },
        Stmt::FuncDef(f) => Err(SemanticError::NestedFunction(f.ident)),
    }
}

/// The `if` / `else if` cases from position `i` on: each condition is
/// `Bool`, and each body checks in a scope of its own.
pub open spec fn branches_result(bs: Seq<Branch>, env: Seq<Binding>, ret: Option<Type>, i: nat) -> Result<(), SemanticError>
    decreases bs, bs.len() - i,
{
    if i >= bs.len() {
        Ok(())
    } else {
        match expr_result(bs[i as int].cond, env) {
            Err(x) => Err(x),
            Ok(t) => if t != Type::Bool {
                Err(SemanticError::ConditionNotBool(t))
            } else {
                match block_result(bs[i as int].block@, env, ret, 0) {
                    Err(x) => Err(x),
                    Ok(_) => branches_result(bs, env, ret, i + 1),
                }
            },
        }
    }
}

/// The statements of a block from position `i` on, each under the bindings
/// that the ones before it left. The block's own bindings end with it.
pub open spec fn block_result(b: Seq<Stmt>, env: Seq<Binding>, ret: Option<Type>, i: nat) -> Result<(), SemanticError>
    decreases b, b.len() - i,
{
    if i >= b.len() {
        Ok(())
    } else {
        match stmt_result(b[i as int], env, ret) {
            Err(x) => Err(x),
            Ok(env2) => block_result(b, env2, ret, i + 1),
        }
    }
}

/// A declared result type is primitive.
pub open spec fn ret_wf(ret: Option<Type>) -> bool {
    ret matches Some(t) ==> is_primitive(t)
}

/// Checks one statement; a `let` adds its binding to `env`.
pub fn check_stmt(s: &Stmt, env: &mut Vec<Binding>, ret: &Option<Type>) -> (r: Result<(), SemanticError>)
    requires
        env_wf(old(env)@),
        ret_wf(*ret),
    ensures
        env_wf(final(env)@),
        match stmt_result(*s, old(env)@, *ret) {
            Ok(env2) => r is Ok && final(env)@ == env2,
            Err(x) => r == Err::<(), SemanticError>(x) && final(env)@ == old(env)@,
        },
    decreases s, 0nat,
{
    match s {
        Stmt::Assign(sym, annot, e) => {
            let unknown = match annot {
                Type::Unknown => true,
                _ => false,
            };
            if !unknown && !is_primitive_type(annot) {
                return Err(SemanticError::InvalidAnnotation(sym.ident.clone()));
            }
            let t = match check_expr(e, env) {
                Err(x) => return Err(x),
                Ok(t) => t,
            };
            if unknown || same_primitive(annot, &t) {
                env.push(Binding { symbol: Symbol { ident: sym.ident.clone() }, type_t: t, mutable: true });
                Ok(())
            } else {
                Err(SemanticError::AnnotationMismatch(sym.ident.clone(), copy_primitive(annot), t))
            }
        },
        Stmt::Reassign(sym, op, e) => {
            proof { lemma_lookup_found(env@, sym.ident@); }
            let i = match find_binding(env, &sym.ident) {
                None => return Err(SemanticError::Undefined(sym.ident.clone())),
                Some(i) => i,
            };
            if !is_primitive_type(&env[i].type_t) {
                return Err(SemanticError::NotAValue(sym.ident.clone()));
            }
            if !env[i].mutable {
                return Err(SemanticError::Immutable(sym.ident.clone()));
            }
            let t = match check_expr(e, env) {
                Err(x) => return Err(x),
                Ok(t) => t,
            };
            if !same_primitive(&t, &env[i].type_t) {
                return Err(SemanticError::AssignMismatch(sym.ident.clone(), copy_primitive(&env[i].type_t), t));
            }
            match op {
                AssignOp::Assign => Ok(()),
                _ => if is_numeric_type(&t) {
                    Ok(())
                } else {
                    Err(SemanticError::NotNumeric(sym.ident.clone()))
                },
            }
        },
        Stmt::Call(f, args) => match check_call(f, args, env) {
            Err(x) => Err(x),
            Ok(_) => Ok(()),
        },
        Stmt::If(branches, els) => {
            match check_branches(branches, env, ret) {
                Err(x) => return Err(x),
                Ok(_) => {},
            }
            match els {
                None => Ok(()),
                Some(b) => check_block(b, env, ret),
            }
        },
        Stmt::Return(e) => match ret {
            None => Err(SemanticError::MisplacedReturn),
            Some(rt) => {
                let t = match check_expr(e, env) {
                    Err(x) => return Err(x),
                    Ok(t) => t,
                };
                if same_primitive(&t, rt) {
                    Ok(())
                } else {
                    Err(SemanticError::ReturnMismatch(copy_primitive(rt), t))
                }
            },
        },
        Stmt::FuncDef(f) => Err(SemanticError::NestedFunction(f.ident.clone())),
    }
}

/// Checks the cases of an `if` chain; `env` is left as it was.
pub fn check_branches(bs: &Vec<Branch>, env: &mut Vec<Binding>, ret: &Option<Type>) -> (r: Result<(), SemanticError>)
    requires
        env_wf(old(env)@),
        ret_wf(*ret),
    ensures
        final(env)@ == old(env)@,
        r == branches_result(bs@, old(env)@, *ret, 0),
    decreases bs@, bs@.len() + 1,
{
    let mut i: usize = 0;
    while i < bs.len()
        invariant
            env_wf(env@),
            env@ == old(env)@,
            ret_wf(*ret),
            i <= bs@.len(),
            branches_result(bs@, old(env)@, *ret, 0) == branches_result(bs@, env@, *ret, i as nat),
        decreases bs@.len() - i,
    {
        let t = match check_expr(&bs[i].cond, env) {
            Err(x) => return Err(x),
            Ok(t) => t,
        };
        match t {
            Type::Bool => {},
            _ => return Err(SemanticError::ConditionNotBool(t)),
        }
        match check_block(&bs[i].block, env, ret) {
            Err(x) => return Err(x),
            Ok(_) => {},
        }
        i += 1;
    }
    Ok(())
}

/// Checks a block in a scope of its own: the bindings it declares are gone
/// when it ends.
pub fn check_block(b: &Block, env: &mut Vec<Binding>, ret: &Option<Type>) -> (r: Result<(), SemanticError>)
    requires
        env_wf(old(env)@),
        ret_wf(*ret),
    ensures
        final(env)@ == old(env)@,
        r == block_result(b@, old(env)@, *ret, 0),
    decreases b@, b@.len() + 1,
{
    let base = env.len();
    let mut i: usize = 0;
    while i < b.len()
        invariant
            env_wf(env@),
            ret_wf(*ret),
            base == old(env)@.len(),
            base <= env@.len(),
            env@.subrange(0, base as int) == old(env)@,
            i <= b@.len(),
            block_result(b@, old(env)@, *ret, 0) == block_result(b@, env@, *ret, i as nat),
        decreases b@.len() - i,
    {
        match check_stmt(&b[i], env, ret) {
            Err(x) => {
                env.truncate(base);
                return Err(x);
            },
            Ok(_) => {},
        }
        i += 1;
    }
    env.truncate(base);
    Ok(())
}

/// Whether `e` reads the value named `n`.
pub open spec fn mentions(e: Expr, n: Seq<char>) -> bool
    decreases e, 0nat,
{
    match e {
        Expr::Term(t) => match *t {
            Term::Id(m) => m@ == n,
            Term::Num(_) => false,
            Term::Expr(inner) => mentions(*inner, n),
        },
        Expr::Binary(_, l, r) => mentions(*l, n) || mentions(*r, n),
        Expr::Call(_, args) => args_mention(args@, n, 0),
    }
}

pub open spec fn args_mention(args: Seq<Expr>, n: Seq<char>, i: nat) -> bool
    decreases args, args.len() - i,
{
    if i >= args.len() {
        false
    } else {
        mentions(args[i as int], n) || args_mention(args, n, i + 1)
    }
}

pub fn expr_mentions(e: &Expr, n: &String) -> (r: bool)
    ensures
        r == mentions(*e, n@),
    decreases e, 0nat,
{
    match e {
        Expr::Term(t) => match &**t {
            Term::Id(m) => *m == *n,
            Term::Num(_) => false,
            Term::Expr(inner) => expr_mentions(inner, n),
        },
        Expr::Binary(_, l, r) => expr_mentions(l, n) || expr_mentions(r, n),
        Expr::Call(_, args) => args_mentions(args, n),
    }
}

pub fn args_mentions(args: &Vec<Expr>, n: &String) -> (r: bool)
    ensures
        r == args_mention(args@, n@, 0),
    decreases args@, args@.len() + 1,
{
    let mut i: usize = 0;
    while i < args.len()
        invariant
            i <= args@.len(),
            args_mention(args@, n@, 0) == args_mention(args@, n@, i as nat),
        decreases args@.len() - i,
    {
        if expr_mentions(&args[i], n) {
            return true;
        }
        i += 1;
    }
    false
}

/// The top-level declarations: those before the program, then those after.
pub open spec fn decls(root: Root) -> Seq<Stmt> {
    root.preblock@ + root.postblock@
}

pub open spec fn decl_name(d: Stmt) -> Seq<char> {
    match d {
        Stmt::Assign(s, _, _) => s.ident@,
        Stmt::FuncDef(f) => f.ident@,
        _ => Seq::empty(),
    }
}

/// Only value and function declarations stand at the top level, each
/// function signature is valid, and no two declarations share a name.
pub open spec fn decls_shape_ok(ds: Seq<Stmt>) -> bool {
    &&& forall|k: int| 0 <= k < ds.len() ==> (#[trigger] ds[k] is Assign || (ds[k] matches Stmt::FuncDef(f) && signature_valid(*f)))
    &&& forall|k: int, j: int| 0 <= k < j < ds.len() ==> decl_name(#[trigger] ds[k]) != decl_name(#[trigger] ds[j])
}

/// The binding at position `k` is the one that declaration `k` makes:
/// a function with its signature, or a value with the type its initializer
/// has under all top-level bindings, agreeing with its annotation.
pub open spec fn global_binding_ok(d: Stmt, b: Binding, env: Seq<Binding>) -> bool {
    match d {
        Stmt::FuncDef(f) => b.symbol.ident@ == f.ident@ && is_signature_of(b.type_t, *f) && !b.mutable,
        Stmt::Assign(s, annot, e) => {
            &&& b.symbol.ident@ == s.ident@
            &&& b.mutable
            &&& expr_result(*e, env) == Ok::<Type, SemanticError>(b.type_t)
            &&& (annot is Unknown || annot == b.type_t)
        },
        _ => false,
    }
}

/// Value declarations depend only on values of lower rank: no value
/// depends on itself, directly or through others.
pub open spec fn ranks_ok(ds: Seq<Stmt>, rank: Seq<usize>) -> bool {
    &&& rank.len() == ds.len()
    &&& forall|k: int, j: int|
        0 <= k < ds.len() && 0 <= j < ds.len() && #[trigger] ds[k] is Assign && #[trigger] ds[j] is Assign
            && mentions(*ds[k]->Assign_2, decl_name(ds[j])) ==> rank[j] < rank[k]
}

/// The bindings that a `with` clause adds, from position `i` on: each names
/// a value already in scope, read-only or read-write.
pub open spec fn with_result(ws: Seq<WithVar>, env: Seq<Binding>, i: nat) -> Result<Seq<Binding>, SemanticError>
    decreases ws.len() - i,
{
    if i >= ws.len() {
        Ok(env)
    } else {
        let (s, mutable) = match ws[i as int] {
            WithVar::Imm(s) => (s, false),
            WithVar::Mut(s) => (s, true),
        };
        match lookup(env, s.ident@) {
            None => Err(SemanticError::Undefined(s.ident)),
            Some(j) => if !is_primitive(env[j].type_t) {
                Err(SemanticError::NotAValue(s.ident))
            } else {
                with_result(ws, env.push(Binding { symbol: s, type_t: env[j].type_t, mutable }), i + 1)
            },
        }
    }
}

/// The bindings after declaring parameters from position `i` on.
pub open spec fn params_env(ps: Seq<Param>, env: Seq<Binding>, i: nat) -> Seq<Binding>
    decreases ps.len() - i,
{
    if i >= ps.len() {
        env
    } else {
        params_env(ps, env.push(Binding { symbol: Symbol { ident: ps[i as int].name }, type_t: ps[i as int].type_t, mutable: true }), i + 1)
    }
}

/// A function body checks under the top-level bindings, its `with` clause
/// and its parameters, against its declared result.
pub open spec fn func_result(f: Func, env: Seq<Binding>) -> Result<(), SemanticError> {
    match with_result(f.with@, env, 0) {
        Err(x) => Err(x),
        Ok(env2) => block_result(f.block@, params_env(f.params@, env2, 0), Some(f.ret_t), 0),
    }
}

/// The program body checks under the top-level bindings and its `with` clause.
pub open spec fn program_result(p: Program, env: Seq<Binding>) -> Result<(), SemanticError> {
    match p {
        Program::NoWith(_, b) => block_result(b@, env, None, 0),
        Program::With(_, ws, b) => match with_result(ws@, env, 0) {
            Err(x) => Err(x),
            Ok(env2) => block_result(b@, env2, None, 0),
        },
    }
}

/// A fully checked source file: `env` binds every top-level declaration to
/// its resolved type, value declarations are acyclic, and every function
/// body and the program body check.
pub open spec fn program_checked(root: Root, env: Seq<Binding>, rank: Seq<usize>) -> bool {
    let ds = decls(root);
    &&& decls_shape_ok(ds)
    &&& env.len() == ds.len()
    &&& env_wf(env)
    &&& (forall|k: int| 0 <= k < ds.len() ==> global_binding_ok(#[trigger] ds[k], env[k], env))
    &&& ranks_ok(ds, rank)
    &&& (forall|k: int| 0 <= k < ds.len() && #[trigger] ds[k] is FuncDef ==> func_result(*ds[k]->FuncDef_0, env) is Ok)
    &&& program_result(root.program, env) is Ok
}

/// Declaration `k` of the top level.
pub fn decl_at(root: &Root, k: usize) -> (r: &Stmt)
    requires
        k < decls(*root).len(),
    ensures
        *r == decls(*root)[k as int],
{
    if k < root.preblock.len() {
        &root.preblock[k]
    } else {
        &root.postblock[k - root.preblock.len()]
    }
}

pub fn decls_len(root: &Root) -> (r: usize)
    requires
        decls(*root).len() <= usize::MAX,
    ensures
        r == decls(*root).len(),
{
    root.preblock.len() + root.postblock.len()
}

/// The name a declaration introduces; empty for other statements.
pub fn decl_ident(d: &Stmt) -> (r: String)
    ensures
        r@ == decl_name(*d),
{
    match d {
        Stmt::Assign(s, _, _) => s.ident.clone(),
        Stmt::FuncDef(f) => f.ident.clone(),
        _ => String::new(),
    }
}

/// Checks that the top level holds only declarations, with valid
/// signatures and distinct names.
pub fn check_shape(root: &Root) -> (r: Result<(), SemanticError>)
    requires
        decls(*root).len() <= usize::MAX,
    ensures
        r is Ok <==> decls_shape_ok(decls(*root)),
{
    let ghost ds = decls(*root);
    let n = decls_len(root);
    let mut k: usize = 0;
    while k < n
        invariant
            ds == decls(*root),
            n == ds.len(),
            k <= n,
            forall|a: int| 0 <= a < k ==> (#[trigger] ds[a] is Assign || (ds[a] matches Stmt::FuncDef(f) && signature_valid(*f))),
            forall|a: int, b: int| 0 <= a < b < k ==> decl_name(#[trigger] ds[a]) != decl_name(#[trigger] ds[b]),
        decreases n - k,
    {
        let d = decl_at(root, k);
        match d {
            Stmt::Assign(_, _, _) => {},
            Stmt::FuncDef(f) => {
                if build_signature(f).is_none() {
                    return Err(SemanticError::InvalidSignature(f.ident.clone()));
                }
            },
            _ => return Err(SemanticError::TopLevelStatement),
        }
        let name = decl_ident(d);
        let mut j: usize = 0;
        while j < k
            invariant
                ds == decls(*root),
                n == ds.len(),
                j <= k < n,
                name@ == decl_name(ds[k as int]),
                forall|b: int| 0 <= b < j ==> decl_name(#[trigger] ds[b]) != decl_name(ds[k as int]),
            decreases k - j,
        {
            let other = decl_ident(decl_at(root, j));
            if other == name {
                return Err(SemanticError::Duplicate(name));
            }
            j += 1;
        }
        k += 1;
    }
    Ok(())
}

/// Adds the bindings of a `with` clause.
pub fn add_with(ws: &Vec<WithVar>, env: &mut Vec<Binding>) -> (r: Result<(), SemanticError>)
    requires
        env_wf(old(env)@),
    ensures
        env_wf(final(env)@),
        final(env)@.len() >= old(env)@.len(),
        final(env)@.subrange(0, old(env)@.len() as int) == old(env)@,
        match with_result(ws@, old(env)@, 0) {
            Ok(e2) => r is Ok && final(env)@ == e2,
            Err(x) => r == Err::<(), SemanticError>(x),
        },
{
    let ghost env0 = env@;
    let mut i: usize = 0;
    while i < ws.len()
        invariant
            env_wf(env@),
            i <= ws@.len(),
            env@.len() >= env0.len(),
            env@.subrange(0, env0.len() as int) == env0,
            env0 == old(env)@,
            with_result(ws@, old(env)@, 0) == with_result(ws@, env@, i as nat),
        decreases ws@.len() - i,
    {
        let (s, mutable) = match &ws[i] {
            WithVar::Imm(s) => (s, false),
            WithVar::Mut(s) => (s, true),
        };
        proof { lemma_lookup_found(env@, s.ident@); }
        let j = match find_binding(env, &s.ident) {
            None => return Err(SemanticError::Undefined(s.ident.clone())),
            Some(j) => j,
        };
        if !is_primitive_type(&env[j].type_t) {
            return Err(SemanticError::NotAValue(s.ident.clone()));
        }
        let type_t = copy_primitive(&env[j].type_t);
        env.push(Binding { symbol: Symbol { ident: s.ident.clone() }, type_t, mutable });
        assert(env@.subrange(0, env0.len() as int) =~= env0);
        i += 1;
    }
    Ok(())
}

/// Declares a function's parameters.
pub fn add_params(ps: &Vec<Param>, env: &mut Vec<Binding>)
    requires
        env_wf(old(env)@),
        forall|i: int| 0 <= i < ps@.len() ==> is_primitive(#[trigger] ps@[i].type_t),
    ensures
        env_wf(final(env)@),
        final(env)@ == params_env(ps@, old(env)@, 0),
        final(env)@.len() >= old(env)@.len(),
        final(env)@.subrange(0, old(env)@.len() as int) == old(env)@,
{
    let ghost env0 = env@;
    let mut i: usize = 0;
    while i < ps.len()
        invariant
            env_wf(env@),
            forall|i: int| 0 <= i < ps@.len() ==> is_primitive(#[trigger] ps@[i].type_t),
            i <= ps@.len(),
            env@.len() >= env0.len(),
            env@.subrange(0, env0.len() as int) == env0,
            env0 == old(env)@,
            params_env(ps@, old(env)@, 0) == params_env(ps@, env@, i as nat),
        decreases ps@.len() - i,
    {
        env.push(Binding { symbol: Symbol { ident: ps[i].name.clone() }, type_t: copy_primitive(&ps[i].type_t), mutable: true });
        assert(env@.subrange(0, env0.len() as int) =~= env0);
        i += 1;
    }
}

/// Checks a function body against its signature under the top-level
/// bindings `env`, which it leaves as they were.
pub fn check_func(f: &Func, env: &mut Vec<Binding>) -> (r: Result<(), SemanticError>)
    requires
        env_wf(old(env)@),
        signature_valid(*f),
    ensures
        final(env)@ == old(env)@,
        r == func_result(*f, old(env)@),
{
    let base = env.len();
    match add_with(&f.with, env) {
        Err(x) => {
            env.truncate(base);
            return Err(x);
        },
        Ok(_) => {},
    }
    add_params(&f.params, env);
    let ret = Some(copy_primitive(&f.ret_t));
    let r = check_block(&f.block, env, &ret);
    env.truncate(base);
    r
}

/// Checks the program body under the top-level bindings `env`, which it
/// leaves as they were.
pub fn check_program(p: &Program, env: &mut Vec<Binding>) -> (r: Result<(), SemanticError>)
    requires
        env_wf(old(env)@),
    ensures
        final(env)@ == old(env)@,
        r == program_result(*p, old(env)@),
{
    match p {
        Program::NoWith(_, b) => check_block(b, env, &None),
        Program::With(_, ws, b) => {
            let base = env.len();
            match add_with(ws, env) {
                Err(x) => {
                    env.truncate(base);
                    return Err(x);
                },
                Ok(_) => {},
            }
            let r = check_block(b, env, &None);
            env.truncate(base);
            r
        },
    }
}

/// A valid signature makes a well-formed binding.
pub proof fn lemma_signature_binding(t: Type, f: Func, b: Binding)
    requires
        is_signature_of(t, f),
        signature_valid(f),
        b.type_t == t,
    ensures
        binding_wf(b),
{
    let ft = t->Function_0;
    assert forall|i: int| 0 <= i < ft.params_t@.len() implies is_primitive(#[trigger] ft.params_t@[i]) by {
        assert(ft.params_t@[i] == f.params@[i].type_t);
    }
}

/// Number of checked frames among the first `m`.
pub open spec fn count_checked(fs: Seq<Frame>, m: int) -> int
    decreases m,
{
    if m <= 0 {
        0
    } else {
        count_checked(fs, m - 1) + if fs[m - 1].checked { 1int } else { 0int }
    }
}

proof fn lemma_count_bound(fs: Seq<Frame>, m: int)
    requires
        0 <= m,
    ensures
        0 <= count_checked(fs, m) <= m,
    decreases m,
{
    if m > 0 {
        lemma_count_bound(fs, m - 1);
    }
}

proof fn lemma_count_update(fs: Seq<Frame>, k: int, f: Frame, m: int)
    requires
        0 <= k < fs.len(),
        0 <= m <= fs.len(),
        !fs[k].checked,
        f.checked,
    ensures
        count_checked(fs.update(k, f), m) == count_checked(fs, m) + if k < m { 1int } else { 0int },
    decreases m,
{
    if m > 0 {
        lemma_count_update(fs, k, f, m - 1);
    }
}

proof fn lemma_count_prefix(fs1: Seq<Frame>, fs2: Seq<Frame>, m: int)
    requires
        0 <= m <= fs1.len(),
        m <= fs2.len(),
        forall|i: int| 0 <= i < m ==> fs1[i] == fs2[i],
    ensures
        count_checked(fs1, m) == count_checked(fs2, m),
    decreases m,
{
    if m > 0 {
        lemma_count_prefix(fs1, fs2, m - 1);
    }
}

/// Value `a` reads a value whose frame is unchecked.
pub open spec fn has_unchecked_input(root: Root, fs: Seq<Frame>, a: int) -> bool {
    exists|j: int| 0 <= j < fs.len() && decls(root)[j] is Assign && !fs[j].checked
        && mentions(*decls(root)[a]->Assign_2, decl_name(decls(root)[j]))
}

/// A checked file has no unchecked value once every value whose inputs
/// are checked is checked itself: follow inputs down the ranks.
proof fn lemma_stuck_means_done(root: Root, wr: Seq<usize>, fs: Seq<Frame>, k: int, bound: nat)
    requires
        ranks_ok(decls(root), wr),
        fs.len() == decls(root).len(),
        0 <= k < fs.len(),
        wr[k] < bound,
        forall|a: int| 0 <= a < fs.len() && !(#[trigger] fs[a]).checked ==> decls(root)[a] is Assign
            && has_unchecked_input(root, fs, a),
    ensures
        fs[k].checked,
    decreases bound,
{
    let ds = decls(root);
    if !fs[k].checked {
        assert(has_unchecked_input(root, fs, k));
        let j = choose|j: int| 0 <= j < fs.len() && ds[j] is Assign && !fs[j].checked
            && mentions(*ds[k]->Assign_2, decl_name(ds[j]));
        assert(ds[k] is Assign && ds[j] is Assign);
        assert(wr[j] < wr[k]);
        lemma_stuck_means_done(root, wr, fs, j, wr[k] as nat);
    }
}

/// The top-level bindings with every function, every checked value at its
/// type, and every other value at a stand-in type.
fn build_env(root: &Root, frames: &Vec<Frame>) -> (r: Result<Vec<Binding>, SemanticError>)
    requires
        frames@.len() == decls(*root).len(),
        decls_shape_ok(decls(*root)),
    ensures
        r matches Ok(env) ==> env_wf(env@) && env@.len() == decls(*root).len()
            && forall|j: int| 0 <= j < env@.len() ==> {
                let d = #[trigger] decls(*root)[j];
                &&& env@[j].symbol.ident@ == decl_name(d)
                &&& (env@[j].type_t is Function) == (d is FuncDef)
                &&& (d matches Stmt::FuncDef(f) ==> is_signature_of(env@[j].type_t, *f) && !env@[j].mutable)
                &&& (d is Assign ==> env@[j].mutable)
                &&& (d is Assign && frames@[j].checked ==> env@[j].type_t == frames@[j].type_t)
            },
        decls_shape_ok(decls(*root)) && (forall|j: int| 0 <= j < frames@.len() && decls(*root)[j] is Assign
            ==> is_primitive(#[trigger] frames@[j].type_t) || !frames@[j].checked) ==> r is Ok,
{
    let ghost ds = decls(*root);
    let ghost good = forall|j: int| 0 <= j < frames@.len() && ds[j] is Assign
        ==> is_primitive(#[trigger] frames@[j].type_t) || !frames@[j].checked;
    let n = frames.len();
    let mut env: Vec<Binding> = Vec::new();
    let mut k: usize = 0;
    while k < n
        invariant
            ds == decls(*root),
            decls_shape_ok(ds),
            n == frames@.len() == ds.len(),
            k <= n,
            env_wf(env@),
            env@.len() == k,
            good == (forall|j: int| 0 <= j < frames@.len() && ds[j] is Assign
                ==> is_primitive(#[trigger] frames@[j].type_t) || !frames@[j].checked),
            forall|j: int| 0 <= j < k ==> {
                let d = #[trigger] ds[j];
                &&& env@[j].symbol.ident@ == decl_name(d)
                &&& (env@[j].type_t is Function) == (d is FuncDef)
                &&& (d matches Stmt::FuncDef(f) ==> is_signature_of(env@[j].type_t, *f) && !env@[j].mutable)
                &&& (d is Assign ==> env@[j].mutable)
                &&& (d is Assign && frames@[j].checked ==> env@[j].type_t == frames@[j].type_t)
            },
        decreases n - k,
    {
        assert(ds[k as int] is Assign || ds[k as int] is FuncDef);
        match decl_at(root, k) {
            Stmt::FuncDef(f) => match build_signature(f) {
                Some(t) => {
                    let b = Binding { symbol: Symbol { ident: f.ident.clone() }, type_t: t, mutable: false };
                    proof { lemma_signature_binding(t, **f, b); }
                    env.push(b);
                },
                None => return Err(SemanticError::InvalidSignature(f.ident.clone())),
            },
            Stmt::Assign(s, _, _) => {
                let fr = &frames[k];
                if fr.checked {
                    assert(ds[k as int] is Assign);
                    if !is_primitive_type(&fr.type_t) {
                        return Err(SemanticError::Cyclic(s.ident.clone()));
                    }
                    env.push(Binding { symbol: Symbol { ident: s.ident.clone() }, type_t: copy_primitive(&fr.type_t), mutable: true });
                } else {
                    env.push(Binding { symbol: Symbol { ident: s.ident.clone() }, type_t: Type::Int32, mutable: true });
                }
            },
            _ => return Err(SemanticError::TopLevelStatement),
        }
        k += 1;
    }
    Ok(env)
}

/// The top-level values that the initializer of declaration `k` reads.
fn value_deps(root: &Root, k: usize) -> (r: Vec<usize>)
    requires
        k < decls(*root).len() < 0x8000_0000,
    ensures
        r@.len() <= decls(*root).len(),
        !(decls(*root)[k as int] is Assign) ==> r@.len() == 0,
        forall|b: int| 0 <= b < r@.len() ==> #[trigger] r@[b] < decls(*root).len(),
        forall|b: int| 0 <= b < r@.len() ==> decls(*root)[#[trigger] r@[b] as int] is Assign
            && mentions(*decls(*root)[k as int]->Assign_2, decl_name(decls(*root)[r@[b] as int])),
        decls(*root)[k as int] is Assign ==> forall|j: int| 0 <= j < decls(*root).len() && #[trigger] decls(*root)[j] is Assign
            && mentions(*decls(*root)[k as int]->Assign_2, decl_name(decls(*root)[j])) ==> r@.contains(j as usize),
{
    let ghost ds = decls(*root);
    let n = decls_len(root);
    let mut r: Vec<usize> = Vec::new();
    if let Stmt::Assign(_, _, e) = decl_at(root, k) {
        let mut j: usize = 0;
        while j < n
            invariant
                ds == decls(*root),
                n == ds.len(),
                ds[k as int] matches Stmt::Assign(_, _, e2) && *e2 == *e,
                j <= n,
                r@.len() <= j,
                forall|b: int| 0 <= b < r@.len() ==> #[trigger] r@[b] < n,
                forall|b: int| 0 <= b < r@.len() ==> ds[#[trigger] r@[b] as int] is Assign
                    && mentions(**e, decl_name(ds[r@[b] as int])),
                forall|i: int| 0 <= i < j && #[trigger] ds[i] is Assign && mentions(**e, decl_name(ds[i])) ==> r@.contains(i as usize),
            decreases n - j,
        {
            if let Stmt::Assign(s, _, _) = decl_at(root, j) {
                if expr_mentions(e, &s.ident) {
                    let ghost old_r = r@;
                    r.push(j);
                    assert(r@[r@.len() - 1] == j);
                    assert forall|x: usize| old_r.contains(x) implies r@.contains(x) by {
                        let b = choose|b: int| 0 <= b < old_r.len() && old_r[b] == x;
                        assert(r@[b] == x);
                    }
                }
            }
            j += 1;
        }
    }
    r
}

/// Whether every value in `deps` is checked.
fn deps_checked(deps: &Vec<usize>, frames: &Vec<Frame>) -> (r: bool)
    requires
        forall|b: int| 0 <= b < deps@.len() ==> #[trigger] deps@[b] < frames@.len(),
    ensures
        r == forall|b: int| 0 <= b < deps@.len() ==> frames@[#[trigger] deps@[b] as int].checked,
{
    let mut b: usize = 0;
    while b < deps.len()
        invariant
            b <= deps@.len(),
            forall|c: int| 0 <= c < deps@.len() ==> #[trigger] deps@[c] < frames@.len(),
            forall|c: int| 0 <= c < b ==> frames@[#[trigger] deps@[c] as int].checked,
        decreases deps@.len() - b,
    {
        if !frames[deps[b]].checked {
            return false;
        }
        b += 1;
    }
    true
}

/// Resolves the type of every top-level value, whatever the order of the
/// declarations. Each value has a frame whose parts are the values it
/// reads; a pass checks every frame whose parts are all checked, and passes
/// repeat while one makes progress. Values left unchecked depend on each
/// other in a cycle. Gives the top-level bindings and the order in which the
/// values were resolved. Whenever the file checks at all (`we`, `wr`), this
/// succeeds, with bindings that type alike.
fn resolve_globals(root: &Root, Ghost(we): Ghost<Seq<Binding>>, Ghost(wr): Ghost<Seq<usize>>) -> (r: Result<(Vec<Binding>, Vec<usize>), SemanticError>)
    requires
        decls(*root).len() < 0x8000_0000,
        decls_shape_ok(decls(*root)),
    ensures
        r matches Ok((env, rank)) ==> env_wf(env@) && env@.len() == decls(*root).len() && rank@.len() == decls(*root).len(),
        program_checked(*root, we, wr) ==> (r matches Ok((env, rank)) && envs_alike(env@, we) && ranks_ok(decls(*root), rank@)),
{
    let ghost ds = decls(*root);
    let ghost w = program_checked(*root, we, wr);
    let n = decls_len(root);
    let mut frames: Vec<Frame> = Vec::new();
    let mut deps: Vec<Vec<usize>> = Vec::new();
    let mut rank: Vec<usize> = Vec::new();
    let mut counter: usize = 0;
    let mut k: usize = 0;
    while k < n
        invariant
            ds == decls(*root),
            decls_shape_ok(ds),
            n == ds.len() < 0x8000_0000,
            k <= n,
            frames@.len() == k,
            deps@.len() == k,
            rank@.len() == k,
            counter as int == count_checked(frames@, k as int),
            forall|a: int, b: int| 0 <= a < deps@.len() && 0 <= b < deps@[a]@.len() ==> #[trigger] deps@[a]@[b] < n,
            forall|a: int| 0 <= a < frames@.len() ==> (#[trigger] frames@[a]).wf() && frames@[a].total == deps@[a]@.len()
                && (frames@[a].checked <==> ds[a] is FuncDef),
            forall|a: int| 0 <= a < frames@.len() ==> #[trigger] rank@[a] < n,
            forall|a: int| #![trigger ds[a]] 0 <= a < deps@.len() && ds[a] is Assign ==> forall|j: int| 0 <= j < n && #[trigger] ds[j] is Assign
                && mentions(*ds[a]->Assign_2, decl_name(ds[j])) ==> deps@[a]@.contains(j as usize),
            forall|a: int, b: int| #![trigger deps@[a]@[b]] 0 <= a < deps@.len() && 0 <= b < deps@[a]@.len() ==> ds[deps@[a]@[b] as int] is Assign
                && mentions(*ds[a]->Assign_2, decl_name(ds[deps@[a]@[b] as int])),
        decreases n - k,
    {
        proof { lemma_count_bound(frames@, k as int); }
        let dk = value_deps(root, k);
        let frame = match decl_at(root, k) {
            Stmt::Assign(s, _, _) => new_frame(Node::Local(Symbol { ident: s.ident.clone() }), Type::Unknown, dk.len() as i32, false),
            Stmt::FuncDef(f) => {
                counter += 1;
                new_frame(Node::Func(f.ident.clone()), Type::Nil, 0, true)
            },
            _ => return Err(SemanticError::TopLevelStatement),
        };
        let ghost before = frames@;
        frames.push(frame);
        deps.push(dk);
        rank.push(0);
        proof {
            lemma_count_prefix(before, frames@, k as int);
        }
        k += 1;
    }
    loop
        invariant
            ds == decls(*root),
            decls_shape_ok(ds),
            n == ds.len() < 0x8000_0000,
            w == program_checked(*root, we, wr),
            frames@.len() == n,
            deps@.len() == n,
            rank@.len() == n,
            counter as int == count_checked(frames@, n as int),
            forall|a: int, b: int| 0 <= a < deps@.len() && 0 <= b < deps@[a]@.len() ==> #[trigger] deps@[a]@[b] < n,
            forall|a: int| 0 <= a < n ==> (#[trigger] frames@[a]).wf() && frames@[a].total == deps@[a]@.len()
                && (ds[a] is FuncDef ==> frames@[a].checked)
                && (ds[a] is Assign && frames@[a].checked ==> is_primitive(frames@[a].type_t) && rank@[a] < counter)
                && (w && ds[a] is Assign && frames@[a].checked ==> frames@[a].type_t == we[a].type_t),
            forall|a: int| #![trigger ds[a]] 0 <= a < n && ds[a] is Assign ==> forall|j: int| 0 <= j < n && #[trigger] ds[j] is Assign
                && mentions(*ds[a]->Assign_2, decl_name(ds[j])) ==> deps@[a]@.contains(j as usize),
            forall|a: int, b: int| #![trigger deps@[a]@[b]] 0 <= a < n && 0 <= b < deps@[a]@.len() ==> ds[deps@[a]@[b] as int] is Assign
                && mentions(*ds[a]->Assign_2, decl_name(ds[deps@[a]@[b] as int])),
            forall|a: int, j: int| 0 <= a < n && 0 <= j < n && #[trigger] ds[a] is Assign && frames@[a].checked && #[trigger] ds[j] is Assign
                && mentions(*ds[a]->Assign_2, decl_name(ds[j])) ==> frames@[j].checked && rank@[j] < rank@[a],
        ensures
            ds == decls(*root),
            decls_shape_ok(ds),
            n == ds.len() < 0x8000_0000,
            w == program_checked(*root, we, wr),
            frames@.len() == n,
            deps@.len() == n,
            rank@.len() == n,
            counter as int == count_checked(frames@, n as int),
            forall|a: int, b: int| 0 <= a < deps@.len() && 0 <= b < deps@[a]@.len() ==> #[trigger] deps@[a]@[b] < n,
            forall|a: int| 0 <= a < n ==> (#[trigger] frames@[a]).wf() && frames@[a].total == deps@[a]@.len()
                && (ds[a] is FuncDef ==> frames@[a].checked)
                && (ds[a] is Assign && frames@[a].checked ==> is_primitive(frames@[a].type_t) && rank@[a] < counter)
                && (w && ds[a] is Assign && frames@[a].checked ==> frames@[a].type_t == we[a].type_t),
            forall|a: int| #![trigger ds[a]] 0 <= a < n && ds[a] is Assign ==> forall|j: int| 0 <= j < n && #[trigger] ds[j] is Assign
                && mentions(*ds[a]->Assign_2, decl_name(ds[j])) ==> deps@[a]@.contains(j as usize),
            forall|a: int, b: int| #![trigger deps@[a]@[b]] 0 <= a < n && 0 <= b < deps@[a]@.len() ==> ds[deps@[a]@[b] as int] is Assign
                && mentions(*ds[a]->Assign_2, decl_name(ds[deps@[a]@[b] as int])),
            forall|a: int, j: int| 0 <= a < n && 0 <= j < n && #[trigger] ds[a] is Assign && frames@[a].checked && #[trigger] ds[j] is Assign
                && mentions(*ds[a]->Assign_2, decl_name(ds[j])) ==> frames@[j].checked && rank@[j] < rank@[a],
            forall|a: int| 0 <= a < n ==> frames@[a].checked
                || exists|b: int| 0 <= b < deps@[a]@.len() && !frames@[#[trigger] deps@[a]@[b] as int].checked,
        decreases n - counter,
    {
        proof { lemma_count_bound(frames@, n as int); }
        let start = counter;
        let ghost fstart = frames@;
        k = 0;
        while k < n
            invariant
            ds == decls(*root),
                decls_shape_ok(ds),
                n == ds.len() < 0x8000_0000,
                w == program_checked(*root, we, wr),
                frames@.len() == n,
                deps@.len() == n,
                rank@.len() == n,
                counter as int == count_checked(frames@, n as int),
                forall|a: int, b: int| 0 <= a < deps@.len() && 0 <= b < deps@[a]@.len() ==> #[trigger] deps@[a]@[b] < n,
                forall|a: int| 0 <= a < n ==> (#[trigger] frames@[a]).wf() && frames@[a].total == deps@[a]@.len()
                    && (ds[a] is FuncDef ==> frames@[a].checked)
                    && (ds[a] is Assign && frames@[a].checked ==> is_primitive(frames@[a].type_t) && rank@[a] < counter)
                    && (w && ds[a] is Assign && frames@[a].checked ==> frames@[a].type_t == we[a].type_t),
                forall|a: int| #![trigger ds[a]] 0 <= a < n && ds[a] is Assign ==> forall|j: int| 0 <= j < n && #[trigger] ds[j] is Assign
                    && mentions(*ds[a]->Assign_2, decl_name(ds[j])) ==> deps@[a]@.contains(j as usize),
                forall|a: int, b: int| #![trigger deps@[a]@[b]] 0 <= a < n && 0 <= b < deps@[a]@.len() ==> ds[deps@[a]@[b] as int] is Assign
                    && mentions(*ds[a]->Assign_2, decl_name(ds[deps@[a]@[b] as int])),
                forall|a: int, j: int| 0 <= a < n && 0 <= j < n && #[trigger] ds[a] is Assign && frames@[a].checked && #[trigger] ds[j] is Assign
                    && mentions(*ds[a]->Assign_2, decl_name(ds[j])) ==> frames@[j].checked && rank@[j] < rank@[a],
                k <= n,
                start <= counter,
                counter == start ==> frames@ == fstart,
                counter == start ==> forall|a: int| 0 <= a < k ==> frames@[a].checked
                    || exists|b: int| 0 <= b < deps@[a]@.len() && !frames@[#[trigger] deps@[a]@[b] as int].checked,
            decreases n - k,
        {
            if !frames[k].get_checked() && deps_checked(&deps[k], &frames) {
                let env = build_env(root, &frames)?;
                let t = match decl_at(root, k) {
                    Stmt::Assign(sym, annot, e) => {
                        proof {
                            if w {
                                assert(global_binding_ok(ds[k as int], we[k as int], we));
                                assert forall|j: int| 0 <= j < env@.len() implies (#[trigger] env@[j]).symbol.ident@ == we[j].symbol.ident@
                                    && (env@[j].type_t is Function) == (we[j].type_t is Function) by {
                                    lemma_checked_names(*root, we, wr, j);
                                    assert(ds[j] == ds[j]);
                                }
                                assert forall|j: int| 0 <= j < env@.len() && (env@[j].type_t is Function || mentions(**e, env@[j].symbol.ident@))
                                    implies same_typing(#[trigger] env@[j], we[j]) by {
                                    lemma_checked_names(*root, we, wr, j);
                                    assert(ds[j] == ds[j]);
                                    assert(global_binding_ok(ds[j], we[j], we));
                                    if ds[j] is FuncDef {
                                        let f = *ds[j]->FuncDef_0;
                                        assert(env@[j].type_t->Function_0.params_t@ =~= we[j].type_t->Function_0.params_t@) by {
                                            assert forall|i: int| 0 <= i < f.params@.len() implies env@[j].type_t->Function_0.params_t@[i]
                                                == we[j].type_t->Function_0.params_t@[i] by {
                                                assert(env@[j].type_t->Function_0.params_t@[i] == f.params@[i].type_t);
                                                assert(we[j].type_t->Function_0.params_t@[i] == f.params@[i].type_t);
                                            }
                                        }
                                    } else {
                                        assert(ds[j] is Assign);
                                        assert(deps@[k as int]@.contains(j as usize));
                                        let b = choose|b: int| 0 <= b < deps@[k as int]@.len() && deps@[k as int]@[b] == j as usize;
                                        assert(frames@[deps@[k as int]@[b] as int].checked);
                                    }
                                }
                                lemma_expr_agree(**e, env@, we);
                            }
                        }
                        let t = check_expr(e, &env)?;
                        let unknown = match annot {
                            Type::Unknown => true,
                            _ => false,
                        };
                        if !unknown && !is_primitive_type(annot) {
                            return Err(SemanticError::InvalidAnnotation(sym.ident.clone()));
                        }
                        if !unknown && !same_primitive(annot, &t) {
                            return Err(SemanticError::AnnotationMismatch(sym.ident.clone(), copy_primitive(annot), t));
                        }
                        t
                    },
                    _ => return Err(SemanticError::TopLevelStatement),
                };
                let ghost fb = frames@;
                let mut fr = frames.remove(k);
                let total = fr.get_total();
                fr.set_prog(total);
                fr.set_type(t);
                fr.set_checked();
                frames.insert(k, fr);
                assert(frames@ =~= fb.update(k as int, frames@[k as int]));
                proof {
                    lemma_count_update(fb, k as int, frames@[k as int], n as int);
                    lemma_count_bound(frames@, n as int);
                }
                rank.set(k, counter);
                counter += 1;
            }
            k += 1;
        }
        proof { lemma_count_bound(frames@, n as int); }
        if counter == start {
            break;
        }
    }
    proof {
        if w {
            assert forall|a: int| 0 <= a < n implies #[trigger] frames@[a].checked by {
                assert forall|c: int| 0 <= c < frames@.len() && !(#[trigger] frames@[c]).checked implies ds[c] is Assign
                    && has_unchecked_input(*root, frames@, c) by {
                    let b = choose|b: int| 0 <= b < deps@[c]@.len() && !frames@[#[trigger] deps@[c]@[b] as int].checked;
                    let j = deps@[c]@[b] as int;
                    assert(ds[j] is Assign && mentions(*ds[c]->Assign_2, decl_name(ds[j])));
                }
                lemma_stuck_means_done(*root, wr, frames@, a, (wr[a] + 1) as nat);
            }
        }
    }
    k = 0;
    while k < n
        invariant
            ds == decls(*root),
            n == ds.len() == frames@.len(),
            k <= n,
            w == program_checked(*root, we, wr),
            w ==> forall|a: int| 0 <= a < n ==> #[trigger] frames@[a].checked,
        decreases n - k,
    {
        if !frames[k].get_checked() {
            return Err(SemanticError::Cyclic(decl_ident(decl_at(root, k))));
        }
        k += 1;
    }
    let env = build_env(root, &frames)?;
    proof {
        if w {
            assert forall|j: int| 0 <= j < env@.len() implies same_typing(#[trigger] env@[j], we[j]) && env@[j].mutable == we[j].mutable by {
                lemma_checked_names(*root, we, wr, j);
                assert(ds[j] == ds[j]);
                assert(global_binding_ok(ds[j], we[j], we));
                if ds[j] is FuncDef {
                    let f = *ds[j]->FuncDef_0;
                    assert(env@[j].type_t->Function_0.params_t@ =~= we[j].type_t->Function_0.params_t@) by {
                        assert forall|i: int| 0 <= i < f.params@.len() implies env@[j].type_t->Function_0.params_t@[i]
                            == we[j].type_t->Function_0.params_t@[i] by {
                            assert(env@[j].type_t->Function_0.params_t@[i] == f.params@[i].type_t);
                            assert(we[j].type_t->Function_0.params_t@[i] == f.params@[i].type_t);
                        }
                    }
                }
            }
        }
    }
    Ok((env, rank))
}

/// Whether `b` is the binding that declaration `d` makes under `env`.
fn check_global_binding(d: &Stmt, b: &Binding, env: &Vec<Binding>) -> (r: Result<(), SemanticError>)
    requires
        env_wf(env@),
    ensures
        r is Ok ==> global_binding_ok(*d, *b, env@),
        global_binding_ok(*d, *b, env@) && binding_wf(*b) ==> r is Ok,
{
    match d {
        Stmt::FuncDef(f) => {
            if b.symbol.ident != f.ident || b.mutable {
                return Err(SemanticError::InvalidSignature(f.ident.clone()));
            }
            match &b.type_t {
                Type::Function(ft) => {
                    if ft.params_t.len() != f.params.len() || !same_primitive(&ft.return_t, &f.ret_t) {
                        return Err(SemanticError::InvalidSignature(f.ident.clone()));
                    }
                    let ghost good = global_binding_ok(*d, *b, env@) && binding_wf(*b);
                    let mut i: usize = 0;
                    while i < f.params.len()
                        invariant
                            good == (global_binding_ok(*d, *b, env@) && binding_wf(*b)),
                            *d == Stmt::FuncDef(*f),
                            b.type_t == Type::Function(*ft),
                            ft.params_t@.len() == f.params@.len(),
                            i <= f.params@.len(),
                            forall|j: int| 0 <= j < i ==> #[trigger] ft.params_t@[j] == f.params@[j].type_t,
                        decreases f.params@.len() - i,
                    {
                        if !same_primitive(&ft.params_t[i], &f.params[i].type_t) {
                            return Err(SemanticError::InvalidSignature(f.ident.clone()));
                        }
                        i += 1;
                    }
                    Ok(())
                },
                _ => Err(SemanticError::InvalidSignature(f.ident.clone())),
            }
        },
        Stmt::Assign(sym, annot, e) => {
            if b.symbol.ident != sym.ident || !b.mutable {
                return Err(SemanticError::Cyclic(sym.ident.clone()));
            }
            let t = check_expr(e, env)?;
            if !same_primitive(&t, &b.type_t) {
                return Err(SemanticError::Cyclic(sym.ident.clone()));
            }
            match annot {
                Type::Unknown => Ok(()),
                _ => if same_primitive(annot, &t) {
                    Ok(())
                } else if is_primitive_type(annot) {
                    Err(SemanticError::AnnotationMismatch(sym.ident.clone(), copy_primitive(annot), t))
                } else {
                    Err(SemanticError::InvalidAnnotation(sym.ident.clone()))
                },
            }
        },
        _ => Err(SemanticError::TopLevelStatement),
    }
}

/// Checks that no value reads a value of equal or higher rank.
fn check_ranks(root: &Root, rank: &Vec<usize>) -> (r: Result<(), SemanticError>)
    requires
        rank@.len() == decls(*root).len(),
    ensures
        r is Ok <==> ranks_ok(decls(*root), rank@),
{
    let ghost ds = decls(*root);
    let n = rank.len();
    let mut k: usize = 0;
    while k < n
        invariant
            ds == decls(*root),
            n == ds.len() == rank@.len(),
            k <= n,
            forall|a: int, b: int|
                0 <= a < k && 0 <= b < n && #[trigger] ds[a] is Assign && #[trigger] ds[b] is Assign
                    && mentions(*ds[a]->Assign_2, decl_name(ds[b])) ==> rank@[b] < rank@[a],
        decreases n - k,
    {
        if let Stmt::Assign(_, _, e) = decl_at(root, k) {
            let mut j: usize = 0;
            while j < n
                invariant
                    ds == decls(*root),
                    n == ds.len() == rank@.len(),
                    k < n,
                    j <= n,
                    ds[k as int] matches Stmt::Assign(_, _, e2) && *e2 == *e,
                    forall|b: int|
                        0 <= b < j && #[trigger] ds[b] is Assign && mentions(**e, decl_name(ds[b])) ==> rank@[b] < rank@[k as int],
                decreases n - j,
            {
                if let Stmt::Assign(s, _, _) = decl_at(root, j) {
                    if expr_mentions(e, &s.ident) && rank[j] >= rank[k] {
                        return Err(SemanticError::Cyclic(s.ident.clone()));
                    }
                }
                j += 1;
            }
        }
        k += 1;
    }
    Ok(())
}

/// Declaration `k` is a value whose initializer reads its own name.
pub open spec fn self_referential(ds: Seq<Stmt>, k: int) -> bool {
    ds[k] is Assign && mentions(*ds[k]->Assign_2, decl_name(ds[k]))
}

/// Rejects the first value declaration that reads itself.
fn check_self_reference(root: &Root) -> (r: Result<(), SemanticError>)
    requires
        decls(*root).len() <= usize::MAX,
    ensures
        r is Ok <==> forall|k: int| 0 <= k < decls(*root).len() ==> !self_referential(decls(*root), k),
        r is Err ==> exists|k: int| 0 <= k < decls(*root).len() && self_referential(decls(*root), k)
            && r == Err::<(), SemanticError>(SemanticError::Cyclic(decls(*root)[k]->Assign_0.ident)),
{
    let ghost ds = decls(*root);
    let n = decls_len(root);
    let mut k: usize = 0;
    while k < n
        invariant
            ds == decls(*root),
            n == ds.len(),
            k <= n,
            forall|a: int| 0 <= a < k ==> !self_referential(ds, a),
        decreases n - k,
    {
        if let Stmt::Assign(s, _, e) = decl_at(root, k) {
            if expr_mentions(e, &s.ident) {
                assert(self_referential(ds, k as int));
                return Err(SemanticError::Cyclic(s.ident.clone()));
            }
        }
        k += 1;
    }
    Ok(())
}

/// The outcome of a successful analysis: a binding for every top-level
/// declaration, and the rank in which each value was resolved.
pub struct Analysis {
    pub globals: Vec<Binding>,
    pub rank: Vec<usize>,
}

/// Analyzes a source file: resolves every name and type, allowing
/// declarations to be used before their position, and checks every body.
/// It succeeds exactly on the files that check: the result then satisfies
/// `program_checked`. A malformed top level is rejected, and so is a value
/// that reads itself, as a cycle named after it.
pub fn analyze(root: &Root) -> (r: Result<Analysis, SemanticError>)
    requires
        decls(*root).len() < 0x8000_0000,
    ensures
        r matches Ok(a) ==> program_checked(*root, a.globals@, a.rank@),
        (exists|env: Seq<Binding>, rank: Seq<usize>| program_checked(*root, env, rank)) ==> r is Ok,
        !decls_shape_ok(decls(*root)) ==> r is Err,
        decls_shape_ok(decls(*root)) && (exists|k: int| 0 <= k < decls(*root).len() && self_referential(decls(*root), k))
            ==> exists|k: int| 0 <= k < decls(*root).len() && self_referential(decls(*root), k)
                && r == Err::<Analysis, SemanticError>(SemanticError::Cyclic(decls(*root)[k]->Assign_0.ident)),
{
    let ghost ds = decls(*root);
    check_shape(root)?;
    match check_self_reference(root) {
        Err(x) => return Err(x),
        Ok(_) => {},
    }
    assert(!(exists|k: int| 0 <= k < ds.len() && self_referential(ds, k)));
    let ghost has_w = exists|we: Seq<Binding>, wr: Seq<usize>| program_checked(*root, we, wr);
    proof {
        if has_w {
            let (a, b) = choose|a: Seq<Binding>, b: Seq<usize>| program_checked(*root, a, b);
            assert(program_checked(*root, (a, b).0, (a, b).1));
        }
    }
    let ghost w = choose|w: (Seq<Binding>, Seq<usize>)| program_checked(*root, w.0, w.1);
    proof {
        if has_w {
            assert(program_checked(*root, w.0, w.1));
            assert forall|k: int| 0 <= k < ds.len() implies !self_referential(ds, k) by {
                if ds[k] is Assign {
                    lemma_no_self_reference(*root, w.0, w.1, k);
                }
            }
        }
    }
    let (mut env, rank) = resolve_globals(root, Ghost(w.0), Ghost(w.1))?;
    let n = env.len();
    let mut k: usize = 0;
    while k < n
        invariant
            ds == decls(*root),
            decls_shape_ok(ds),
            !(exists|k: int| 0 <= k < ds.len() && self_referential(ds, k)),
            n == ds.len() == env@.len(),
            env_wf(env@),
            has_w == (exists|we: Seq<Binding>, wr: Seq<usize>| program_checked(*root, we, wr)),
            has_w ==> program_checked(*root, w.0, w.1) && envs_alike(env@, w.0) && ranks_ok(ds, rank@),
            k <= n,
            forall|a: int| 0 <= a < k ==> global_binding_ok(#[trigger] ds[a], env@[a], env@),
        decreases n - k,
    {
        proof {
            if has_w {
                lemma_alike_global(*root, w.0, w.1, env@, k as int);
                assert(binding_wf(env@[k as int]));
            }
        }
        check_global_binding(decl_at(root, k), &env[k], &env)?;
        k += 1;
    }
    check_ranks(root, &rank)?;
    let ghost env0 = env@;
    k = 0;
    while k < n
        invariant
            ds == decls(*root),
            decls_shape_ok(ds),
            !(exists|k: int| 0 <= k < ds.len() && self_referential(ds, k)),
            n == ds.len() == env@.len(),
            env@ == env0,
            env_wf(env@),
            has_w == (exists|we: Seq<Binding>, wr: Seq<usize>| program_checked(*root, we, wr)),
            has_w ==> program_checked(*root, w.0, w.1) && envs_alike(env@, w.0),
            k <= n,
            forall|a: int| 0 <= a < k && #[trigger] ds[a] is FuncDef ==> func_result(*ds[a]->FuncDef_0, env@) is Ok,
        decreases n - k,
    {
        if let Stmt::FuncDef(f) = decl_at(root, k) {
            proof {
                if has_w {
                    assert(ds[k as int] is FuncDef);
                    lemma_alike_func(**f, env@, w.0);
                }
            }
            check_func(f, &mut env)?;
        }
        k += 1;
    }
    proof {
        if has_w {
            lemma_alike_program(root.program, env@, w.0);
        }
    }
    check_program(&root.program, &mut env)?;
    Ok(Analysis { globals: env, rank })
}

/// Bindings that type alike the ones of a checked file are its bindings too.
proof fn lemma_alike_global(root: Root, we: Seq<Binding>, wr: Seq<usize>, env: Seq<Binding>, k: int)
    requires
        program_checked(root, we, wr),
        envs_alike(env, we),
        0 <= k < env.len(),
    ensures
        global_binding_ok(decls(root)[k], env[k], env),
{
    let ds = decls(root);
    assert(global_binding_ok(ds[k], we[k], we));
    assert(same_typing(env[k], we[k]));
    assert forall|j: int| 0 <= j < we.len() implies same_typing(#[trigger] we[j], env[j]) && we[j].mutable == env[j].mutable by {
        assert(same_typing(env[j], we[j]));
    }
    match ds[k] {
        Stmt::Assign(_, _, e) => {
            lemma_alike_expr(*e, env, we);
            lemma_expr_type_concrete(*e, we);
        },
        Stmt::FuncDef(f) => {
            assert(binding_wf(we[k]));
        },
        _ => {},
    }
}

/// An analyzer over one source file.
pub struct State {
    pub root: Root,
    pub analysis: Option<Analysis>,
}

pub fn new_state(root: Root) -> (r: State)
    ensures
        r.root == root,
        r.analysis is None,
{
    State { root, analysis: None }
}

impl State {
    /// Runs the analysis. On success the bindings it found are kept and
    /// satisfy `program_checked`; on failure none are kept.
    pub fn build(&mut self) -> (r: Result<(), SemanticError>)
        requires
            decls(old(self).root).len() < 0x8000_0000,
        ensures
            final(self).root == old(self).root,
            r is Ok <==> final(self).analysis is Some,
            final(self).analysis matches Some(a) ==> program_checked(final(self).root, a.globals@, a.rank@),
            (exists|env: Seq<Binding>, rank: Seq<usize>| program_checked(old(self).root, env, rank)) ==> r is Ok,
            !decls_shape_ok(decls(old(self).root)) ==> r is Err,
            decls_shape_ok(decls(old(self).root)) && (exists|k: int| 0 <= k < decls(old(self).root).len() && self_referential(decls(old(self).root), k))
                ==> exists|k: int| 0 <= k < decls(old(self).root).len() && self_referential(decls(old(self).root), k)
                    && r == Err::<(), SemanticError>(SemanticError::Cyclic(decls(old(self).root)[k]->Assign_0.ident)),
    {
        match analyze(&self.root) {
            Ok(a) => {
                self.analysis = Some(a);
                Ok(())
            },
            Err(x) => {
                self.analysis = None;
                Err(x)
            },
        }
    }
}

/// Every type that inference gives an expression is a concrete primitive
/// type, never a placeholder.
pub proof fn lemma_expr_type_concrete(e: Expr, env: Seq<Binding>)
    requires
        env_wf(env),
    ensures
        expr_result(e, env) is Ok ==> is_primitive(expr_result(e, env)->Ok_0),
        expr_result(e, env) is Ok ==> !is_placeholder(expr_result(e, env)->Ok_0),
    decreases e,
{
    match e {
        Expr::Term(t) => match *t {
            Term::Expr(inner) => {
                lemma_expr_type_concrete(*inner, env);
                assert(expr_result(e, env) == expr_result(*inner, env));
            },
            _ => {},
        },
        Expr::Call(f, args) => {
            lemma_lookup_found(env, f.ident@);
            if let Some(i) = lookup(env, f.ident@) {
                assert(binding_wf(env[i]));
            }
            assert(expr_result(e, env) == call_result(f, args@, env));
        },
        _ => {},
    }
}

/// In a checked file, no top-level binding has a placeholder type.
pub proof fn lemma_checked_no_placeholder(root: Root, env: Seq<Binding>, rank: Seq<usize>)
    requires
        program_checked(root, env, rank),
    ensures
        forall|k: int| 0 <= k < env.len() ==> !is_placeholder(#[trigger] env[k].type_t),
{
    assert forall|k: int| 0 <= k < env.len() implies !is_placeholder(#[trigger] env[k].type_t) by {
        assert(binding_wf(env[k]));
    }
}

/// With distinct names, `lookup` finds the one binding of a name.
pub proof fn lemma_lookup_unique(env: Seq<Binding>, k: int)
    requires
        0 <= k < env.len(),
        forall|j: int| 0 <= j < env.len() && j != k ==> #[trigger] env[j].symbol.ident@ != env[k].symbol.ident@,
    ensures
        lookup(env, env[k].symbol.ident@) == Some(k),
    decreases env.len(),
{
    if k != env.len() - 1 {
        let e2 = env.drop_last();
        assert forall|j: int| 0 <= j < e2.len() && j != k implies #[trigger] e2[j].symbol.ident@ != e2[k].symbol.ident@ by {
            assert(e2[j] == env[j]);
        }
        lemma_lookup_unique(e2, k);
    }
}

/// Forward reference: in a checked file every function is bound under its
/// own name at the top level, whatever its position, so bodies and the
/// program reach functions defined after them, and mutually recursive
/// functions resolve against each other's signatures.
pub proof fn lemma_functions_visible(root: Root, env: Seq<Binding>, rank: Seq<usize>, k: int)
    requires
        program_checked(root, env, rank),
        0 <= k < decls(root).len(),
        decls(root)[k] is FuncDef,
    ensures
        lookup(env, decl_name(decls(root)[k])) == Some(k),
        is_signature_of(env[k].type_t, *decls(root)[k]->FuncDef_0),
{
    let ds = decls(root);
    assert(global_binding_ok(ds[k], env[k], env));
    assert forall|j: int| 0 <= j < env.len() && j != k implies #[trigger] env[j].symbol.ident@ != env[k].symbol.ident@ by {
        assert(global_binding_ok(ds[j], env[j], env));
        assert(ds[j] is Assign || ds[j] is FuncDef);
        if j < k {
            assert(decl_name(ds[j]) != decl_name(ds[k]));
        } else {
            assert(decl_name(ds[k]) != decl_name(ds[j]));
        }
    }
    lemma_lookup_unique(env, k);
}

/// A value declaration never reads itself in a checked file: a
/// self-referential value is rejected, not accepted.
pub proof fn lemma_no_self_reference(root: Root, env: Seq<Binding>, rank: Seq<usize>, k: int)
    requires
        program_checked(root, env, rank),
        0 <= k < decls(root).len(),
        decls(root)[k] is Assign,
    ensures
        !mentions(*decls(root)[k]->Assign_2, decl_name(decls(root)[k])),
{
}

/// Binary operands must have one numeric type: a comparison then gives
/// `Bool`, arithmetic that type; operands of two different types give a
/// mismatch naming the operator and both types.
pub proof fn lemma_binary_homogeneous(op: BinOp, l: Expr, r: Expr, env: Seq<Binding>, lt: Type, rt: Type)
    requires
        expr_result(l, env) == Ok::<Type, SemanticError>(lt),
        expr_result(r, env) == Ok::<Type, SemanticError>(rt),
    ensures
        lt != rt ==> expr_result(Expr::Binary(op, Box::new(l), Box::new(r)), env)
            == Err::<Type, SemanticError>(SemanticError::BinaryMismatch(op, lt, rt)),
        lt == rt && is_numeric(lt) ==> expr_result(Expr::Binary(op, Box::new(l), Box::new(r)), env)
            == Ok::<Type, SemanticError>(if is_comparison(op) { Type::Bool } else { lt }),
{
}

/// Calls convert nothing: a call that checks passes every argument at
/// exactly its parameter's type, and the call has the declared result type.
pub proof fn lemma_call_exact(f: Symbol, args: Seq<Expr>, env: Seq<Binding>)
    requires
        call_result(f, args, env) is Ok,
    ensures
        lookup(env, f.ident@) matches Some(i) && env[i].type_t matches Type::Function(ft)
            && args.len() == ft.params_t@.len()
            && (forall|j: int| 0 <= j < args.len() ==> expr_result(#[trigger] args[j], env) == Ok::<Type, SemanticError>(ft.params_t@[j]))
            && call_result(f, args, env) == Ok::<Type, SemanticError>(*ft.return_t),
{
    let i = lookup(env, f.ident@)->0;
    let ft = env[i].type_t->Function_0;
    lemma_args_exact(f, args, ft.params_t@, env, 0);
}

proof fn lemma_args_exact(f: Symbol, args: Seq<Expr>, params: Seq<Type>, env: Seq<Binding>, i: nat)
    requires
        args.len() == params.len(),
        args_result(f, args, params, env, i) is Ok,
    ensures
        forall|j: int| i <= j < args.len() ==> expr_result(#[trigger] args[j], env) == Ok::<Type, SemanticError>(params[j]),
    decreases args.len() - i,
{
    if i < args.len() {
        lemma_args_exact(f, args, params, env, i + 1);
    }
}

/// An `if` chain that checks has a `Bool` condition in every case and
/// every body checks under the bindings before the chain, each on its own;
/// the chain leaves the bindings as they were, so a `let` inside one case
/// is visible neither in the other cases nor after the chain.
pub proof fn lemma_if_scopes(bs: Vec<Branch>, els: Option<Block>, env: Seq<Binding>, ret: Option<Type>)
    requires
        stmt_result(Stmt::If(bs, els), env, ret) is Ok,
    ensures
        stmt_result(Stmt::If(bs, els), env, ret) == Ok::<Seq<Binding>, SemanticError>(env),
        forall|i: int| 0 <= i < bs@.len() ==> expr_result(#[trigger] bs@[i].cond, env) == Ok::<Type, SemanticError>(Type::Bool)
            && block_result(bs@[i].block@, env, ret, 0) is Ok,
        els matches Some(b) ==> block_result(b@, env, ret, 0) is Ok,
{
    lemma_branches_ok(bs@, env, ret, 0);
}

proof fn lemma_branches_ok(bs: Seq<Branch>, env: Seq<Binding>, ret: Option<Type>, i: nat)
    requires
        branches_result(bs, env, ret, i) is Ok,
    ensures
        forall|j: int| i <= j < bs.len() ==> expr_result(#[trigger] bs[j].cond, env) == Ok::<Type, SemanticError>(Type::Bool)
            && block_result(bs[j].block@, env, ret, 0) is Ok,
    decreases bs.len() - i,
{
    if i < bs.len() {
        lemma_branches_ok(bs, env, ret, i + 1);
    }
}

/// Two bindings that any typing question answers alike: same name, and the
/// same primitive type or the same signature.
pub open spec fn same_typing(b1: Binding, b2: Binding) -> bool {
    &&& b1.symbol.ident@ == b2.symbol.ident@
    &&& (b1.type_t is Function) == (b2.type_t is Function)
    &&& (b1.type_t is Function ==> b1.type_t->Function_0.params_t@ == b2.type_t->Function_0.params_t@
        && *b1.type_t->Function_0.return_t == *b2.type_t->Function_0.return_t)
    &&& (!(b1.type_t is Function) ==> b1.type_t == b2.type_t)
}

/// Two scopes of the same names, in which the functions, and the values
/// that `e` reads, are bound alike.
pub open spec fn agree_for(env1: Seq<Binding>, env2: Seq<Binding>, e: Expr) -> bool {
    &&& env1.len() == env2.len()
    &&& forall|j: int| 0 <= j < env1.len() ==> (#[trigger] env1[j]).symbol.ident@ == env2[j].symbol.ident@
        && (env1[j].type_t is Function) == (env2[j].type_t is Function)
    &&& forall|j: int| 0 <= j < env1.len() && (env1[j].type_t is Function || mentions(e, env1[j].symbol.ident@))
        ==> same_typing(#[trigger] env1[j], env2[j])
}

proof fn lemma_lookup_same_names(env1: Seq<Binding>, env2: Seq<Binding>, n: Seq<char>)
    requires
        env1.len() == env2.len(),
        forall|j: int| 0 <= j < env1.len() ==> (#[trigger] env1[j]).symbol.ident@ == env2[j].symbol.ident@,
    ensures
        lookup(env1, n) == lookup(env2, n),
    decreases env1.len(),
{
    if env1.len() > 0 {
        let (d1, d2) = (env1.drop_last(), env2.drop_last());
        assert forall|j: int| 0 <= j < d1.len() implies (#[trigger] d1[j]).symbol.ident@ == d2[j].symbol.ident@ by {
            assert(d1[j] == env1[j] && d2[j] == env2[j]);
        }
        lemma_lookup_same_names(d1, d2, n);
    }
}

proof fn lemma_args_mention_at(args: Seq<Expr>, n: Seq<char>, i: nat, j: int)
    requires
        i <= j < args.len(),
        mentions(args[j], n),
    ensures
        args_mention(args, n, i),
    decreases j - i,
{
    if i < j {
        lemma_args_mention_at(args, n, i + 1, j);
    }
}

/// Typing an expression depends only on the functions in scope and on the
/// values it reads.
pub proof fn lemma_expr_agree(e: Expr, env1: Seq<Binding>, env2: Seq<Binding>)
    requires
        agree_for(env1, env2, e),
    ensures
        expr_result(e, env1) == expr_result(e, env2),
    decreases e, 0nat,
{
    match e {
        Expr::Term(t) => match *t {
            Term::Id(n) => {
                lemma_lookup_same_names(env1, env2, n@);
                lemma_lookup_found(env1, n@);
                if let Some(i) = lookup(env1, n@) {
                    assert(same_typing(env1[i], env2[i]));
                }
            },
            Term::Num(_) => {},
            Term::Expr(inner) => {
                assert(agree_for(env1, env2, *inner));
                lemma_expr_agree(*inner, env1, env2);
            },
        },
        Expr::Binary(op, l, r) => {
            assert(agree_for(env1, env2, *l));
            assert(agree_for(env1, env2, *r));
            lemma_expr_agree(*l, env1, env2);
            lemma_expr_agree(*r, env1, env2);
        },
        Expr::Call(f, args) => {
            lemma_lookup_same_names(env1, env2, f.ident@);
            lemma_lookup_found(env1, f.ident@);
            if let Some(i) = lookup(env1, f.ident@) {
                if env1[i].type_t is Function {
                    assert(same_typing(env1[i], env2[i]));
                    let p = env1[i].type_t->Function_0.params_t@;
                    assert forall|k: int| 0 <= k < args@.len() implies agree_for(env1, env2, #[trigger] args@[k]) by {
                        assert forall|j: int| 0 <= j < env1.len() && (env1[j].type_t is Function || mentions(args@[k], env1[j].symbol.ident@))
                            implies same_typing(#[trigger] env1[j], env2[j]) by {
                            if mentions(args@[k], env1[j].symbol.ident@) {
                                lemma_args_mention_at(args@, env1[j].symbol.ident@, 0, k);
                            }
                        }
                    }
                    lemma_args_agree(f, args@, p, env1, env2, 0);
                }
            }
            assert(expr_result(e, env1) == call_result(f, args@, env1));
            assert(expr_result(e, env2) == call_result(f, args@, env2));
        },
    }
}

proof fn lemma_args_agree(f: Symbol, args: Seq<Expr>, params: Seq<Type>, env1: Seq<Binding>, env2: Seq<Binding>, i: nat)
    requires
        forall|k: int| 0 <= k < args.len() ==> agree_for(env1, env2, #[trigger] args[k]),
    ensures
        args_result(f, args, params, env1, i) == args_result(f, args, params, env2, i),
    decreases args, args.len() - i,
{
    if i < args.len() && i < params.len() {
        lemma_expr_agree(args[i as int], env1, env2);
        lemma_args_agree(f, args, params, env1, env2, i + 1);
    }
}

proof fn lemma_checked_names(root: Root, env: Seq<Binding>, rank: Seq<usize>, j: int)
    requires
        program_checked(root, env, rank),
        0 <= j < env.len(),
    ensures
        env[j].symbol.ident@ == decl_name(decls(root)[j]),
        (env[j].type_t is Function) == (decls(root)[j] is FuncDef),
{
    let ds = decls(root);
    assert(global_binding_ok(ds[j], env[j], env));
    assert(binding_wf(env[j]));
    if let Stmt::Assign(_, _, e) = ds[j] {
        lemma_expr_type_concrete(*e, env);
    }
}

proof fn lemma_deterministic_below(root: Root, env1: Seq<Binding>, rank1: Seq<usize>, env2: Seq<Binding>, rank2: Seq<usize>, m: nat)
    requires
        program_checked(root, env1, rank1),
        program_checked(root, env2, rank2),
    ensures
        forall|k: int| 0 <= k < env1.len() && #[trigger] decls(root)[k] is Assign && rank1[k] < m
            ==> env1[k].type_t == env2[k].type_t,
    decreases m,
{
    let ds = decls(root);
    if m > 0 {
        lemma_deterministic_below(root, env1, rank1, env2, rank2, (m - 1) as nat);
        assert forall|k: int| 0 <= k < env1.len() && #[trigger] ds[k] is Assign && rank1[k] < m
            implies env1[k].type_t == env2[k].type_t by {
            if rank1[k] == m - 1 {
                let e = *ds[k]->Assign_2;
                assert(global_binding_ok(ds[k], env1[k], env1));
                assert(global_binding_ok(ds[k], env2[k], env2));
                assert forall|j: int| 0 <= j < env1.len() implies (#[trigger] env1[j]).symbol.ident@ == env2[j].symbol.ident@
                    && (env1[j].type_t is Function) == (env2[j].type_t is Function) by {
                    lemma_checked_names(root, env1, rank1, j);
                    lemma_checked_names(root, env2, rank2, j);
                }
                assert forall|j: int| 0 <= j < env1.len() && (env1[j].type_t is Function || mentions(e, env1[j].symbol.ident@))
                    implies same_typing(#[trigger] env1[j], env2[j]) by {
                    lemma_checked_names(root, env1, rank1, j);
                    lemma_checked_names(root, env2, rank2, j);
                    assert(global_binding_ok(ds[j], env1[j], env1));
                    assert(global_binding_ok(ds[j], env2[j], env2));
                    if ds[j] is FuncDef {
                        let f = *ds[j]->FuncDef_0;
                        assert(env1[j].type_t->Function_0.params_t@ =~= env2[j].type_t->Function_0.params_t@) by {
                            assert forall|i: int| 0 <= i < f.params@.len() implies env1[j].type_t->Function_0.params_t@[i] == env2[j].type_t->Function_0.params_t@[i] by {
                                assert(env1[j].type_t->Function_0.params_t@[i] == f.params@[i].type_t);
                                assert(env2[j].type_t->Function_0.params_t@[i] == f.params@[i].type_t);
                            }
                        }
                    } else {
                        assert(ds[k] is Assign && ds[j] is Assign);
                        assert(rank1[j] < rank1[k]);
                    }
                }
                lemma_expr_agree(e, env1, env2);
            }
        }
    }
}

/// Analysis is deterministic: any two successful analyses of one file bind
/// every value to the same type and every function to the same signature.
pub proof fn lemma_analysis_deterministic(root: Root, env1: Seq<Binding>, rank1: Seq<usize>, env2: Seq<Binding>, rank2: Seq<usize>)
    requires
        program_checked(root, env1, rank1),
        program_checked(root, env2, rank2),
    ensures
        env1.len() == env2.len(),
        forall|k: int| 0 <= k < env1.len() ==> same_typing(#[trigger] env1[k], env2[k]),
{
    let ds = decls(root);
    lemma_deterministic_below(root, env1, rank1, env2, rank2, usize::MAX as nat + 1);
    assert forall|k: int| 0 <= k < env1.len() implies same_typing(#[trigger] env1[k], env2[k]) by {
        lemma_checked_names(root, env1, rank1, k);
        lemma_checked_names(root, env2, rank2, k);
        assert(global_binding_ok(ds[k], env1[k], env1));
        assert(global_binding_ok(ds[k], env2[k], env2));
        if ds[k] is FuncDef {
            let f = *ds[k]->FuncDef_0;
            assert(env1[k].type_t->Function_0.params_t@ =~= env2[k].type_t->Function_0.params_t@) by {
                assert forall|i: int| 0 <= i < f.params@.len() implies env1[k].type_t->Function_0.params_t@[i] == env2[k].type_t->Function_0.params_t@[i] by {
                    assert(env1[k].type_t->Function_0.params_t@[i] == f.params@[i].type_t);
                    assert(env2[k].type_t->Function_0.params_t@[i] == f.params@[i].type_t);
                }
            }
        }
    }
}

/// Two scopes that every typing question answers alike.
pub open spec fn envs_alike(e1: Seq<Binding>, e2: Seq<Binding>) -> bool {
    &&& e1.len() == e2.len()
    &&& forall|j: int| 0 <= j < e1.len() ==> same_typing(#[trigger] e1[j], e2[j]) && e1[j].mutable == e2[j].mutable
}

pub open spec fn outcomes_alike(r1: Result<Seq<Binding>, SemanticError>, r2: Result<Seq<Binding>, SemanticError>) -> bool {
    match (r1, r2) {
        (Ok(a), Ok(b)) => envs_alike(a, b),
        (Err(x), Err(y)) => x == y,
        _ => false,
    }
}

proof fn lemma_alike_expr(e: Expr, e1: Seq<Binding>, e2: Seq<Binding>)
    requires
        envs_alike(e1, e2),
    ensures
        expr_result(e, e1) == expr_result(e, e2),
{
    assert forall|j: int| 0 <= j < e1.len() implies (#[trigger] e1[j]).symbol.ident@ == e2[j].symbol.ident@
        && (e1[j].type_t is Function) == (e2[j].type_t is Function) by {
        assert(same_typing(e1[j], e2[j]));
    }
    lemma_expr_agree(e, e1, e2);
}

proof fn lemma_alike_push(e1: Seq<Binding>, e2: Seq<Binding>, b: Binding)
    requires
        envs_alike(e1, e2),
    ensures
        envs_alike(e1.push(b), e2.push(b)),
{
    assert forall|j: int| 0 <= j < e1.len() + 1 implies same_typing(#[trigger] e1.push(b)[j], e2.push(b)[j])
        && e1.push(b)[j].mutable == e2.push(b)[j].mutable by {
        if j < e1.len() {
            assert(same_typing(e1[j], e2[j]));
        }
    }
}

proof fn lemma_alike_stmt(s: Stmt, e1: Seq<Binding>, e2: Seq<Binding>, ret: Option<Type>)
    requires
        envs_alike(e1, e2),
    ensures
        outcomes_alike(stmt_result(s, e1, ret), stmt_result(s, e2, ret)),
    decreases s, 0nat,
{
    match s {
        Stmt::Assign(sym, annot, e) => {
            lemma_alike_expr(*e, e1, e2);
            if let Ok(t) = expr_result(*e, e1) {
                lemma_alike_push(e1, e2, Binding { symbol: sym, type_t: t, mutable: true });
            }
        },
        Stmt::Reassign(sym, op, e) => {
            lemma_alike_expr(*e, e1, e2);
            assert forall|j: int| 0 <= j < e1.len() implies (#[trigger] e1[j]).symbol.ident@ == e2[j].symbol.ident@ by {
                assert(same_typing(e1[j], e2[j]));
            }
            lemma_lookup_same_names(e1, e2, sym.ident@);
            lemma_lookup_found(e1, sym.ident@);
            if let Some(i) = lookup(e1, sym.ident@) {
                assert(same_typing(e1[i], e2[i]));
                if !(e1[i].type_t is Function) {
                    assert(e1[i].type_t == e2[i].type_t);
                } else {
                    assert(!is_primitive(e1[i].type_t) && !is_primitive(e2[i].type_t));
                }
            }
        },
        Stmt::Call(f, args) => {
            lemma_alike_expr(Expr::Call(f, args), e1, e2);
            assert(expr_result(Expr::Call(f, args), e1) == call_result(f, args@, e1));
            assert(expr_result(Expr::Call(f, args), e2) == call_result(f, args@, e2));
        },
        Stmt::If(bs, els) => {
            lemma_alike_branches(bs@, e1, e2, ret, 0);
            if let Some(b) = els {
                lemma_alike_block(b@, e1, e2, ret, 0);
            }
        },
        Stmt::Return(e) => lemma_alike_expr(*e, e1, e2),
        Stmt::FuncDef(_) => {},
    }
}

proof fn lemma_alike_branches(bs: Seq<Branch>, e1: Seq<Binding>, e2: Seq<Binding>, ret: Option<Type>, i: nat)
    requires
        envs_alike(e1, e2),
    ensures
        branches_result(bs, e1, ret, i) == branches_result(bs, e2, ret, i),
    decreases bs, bs.len() - i,
{
    if i < bs.len() {
        lemma_alike_expr(bs[i as int].cond, e1, e2);
        lemma_alike_block(bs[i as int].block@, e1, e2, ret, 0);
        lemma_alike_branches(bs, e1, e2, ret, i + 1);
    }
}

/// Checking a block depends only on how its bindings type.
pub proof fn lemma_alike_block(b: Seq<Stmt>, e1: Seq<Binding>, e2: Seq<Binding>, ret: Option<Type>, i: nat)
    requires
        envs_alike(e1, e2),
    ensures
        block_result(b, e1, ret, i) == block_result(b, e2, ret, i),
    decreases b, b.len() - i,
{
    if i < b.len() {
        lemma_alike_stmt(b[i as int], e1, e2, ret);
        if let Ok(n1) = stmt_result(b[i as int], e1, ret) {
            lemma_alike_block(b, n1, stmt_result(b[i as int], e2, ret)->Ok_0, ret, i + 1);
        }
    }
}

proof fn lemma_alike_with(ws: Seq<WithVar>, e1: Seq<Binding>, e2: Seq<Binding>, i: nat)
    requires
        envs_alike(e1, e2),
    ensures
        outcomes_alike(with_result(ws, e1, i), with_result(ws, e2, i)),
    decreases ws.len() - i,
{
    if i < ws.len() {
        let (s, mutable) = match ws[i as int] {
            WithVar::Imm(s) => (s, false),
            WithVar::Mut(s) => (s, true),
        };
        assert forall|j: int| 0 <= j < e1.len() implies (#[trigger] e1[j]).symbol.ident@ == e2[j].symbol.ident@ by {
            assert(same_typing(e1[j], e2[j]));
        }
        lemma_lookup_same_names(e1, e2, s.ident@);
        lemma_lookup_found(e1, s.ident@);
        if let Some(j) = lookup(e1, s.ident@) {
            assert(same_typing(e1[j], e2[j]));
            if !(e1[j].type_t is Function) {
                assert(e1[j].type_t == e2[j].type_t);
                lemma_alike_push(e1, e2, Binding { symbol: s, type_t: e1[j].type_t, mutable });
                lemma_alike_with(ws, e1.push(Binding { symbol: s, type_t: e1[j].type_t, mutable }), e2.push(Binding { symbol: s, type_t: e2[j].type_t, mutable }), i + 1);
            } else {
                assert(!is_primitive(e1[j].type_t) && !is_primitive(e2[j].type_t));
            }
        }
    } else {
    }
}

proof fn lemma_alike_params(ps: Seq<Param>, e1: Seq<Binding>, e2: Seq<Binding>, i: nat)
    requires
        envs_alike(e1, e2),
    ensures
        envs_alike(params_env(ps, e1, i), params_env(ps, e2, i)),
    decreases ps.len() - i,
{
    if i < ps.len() {
        let b = Binding { symbol: Symbol { ident: ps[i as int].name }, type_t: ps[i as int].type_t, mutable: true };
        lemma_alike_push(e1, e2, b);
        lemma_alike_params(ps, e1.push(b), e2.push(b), i + 1);
    }
}

/// A function body checks alike under alike scopes.
pub proof fn lemma_alike_func(f: Func, e1: Seq<Binding>, e2: Seq<Binding>)
    requires
        envs_alike(e1, e2),
    ensures
        func_result(f, e1) == func_result(f, e2),
{
    lemma_alike_with(f.with@, e1, e2, 0);
    if let Ok(w1) = with_result(f.with@, e1, 0) {
        let w2 = with_result(f.with@, e2, 0)->Ok_0;
        lemma_alike_params(f.params@, w1, w2, 0);
        lemma_alike_block(f.block@, params_env(f.params@, w1, 0), params_env(f.params@, w2, 0), Some(f.ret_t), 0);
    }
}

/// The program body checks alike under alike scopes.
pub proof fn lemma_alike_program(p: Program, e1: Seq<Binding>, e2: Seq<Binding>)
    requires
        envs_alike(e1, e2),
    ensures
        program_result(p, e1) == program_result(p, e2),
{
    match p {
        Program::NoWith(_, b) => lemma_alike_block(b@, e1, e2, None, 0),
        Program::With(_, ws, b) => {
            lemma_alike_with(ws@, e1, e2, 0);
            if let Ok(w1) = with_result(ws@, e1, 0) {
                lemma_alike_block(b@, w1, with_result(ws@, e2, 0)->Ok_0, None, 0);
            }
        },
    }
}

} // verus!
