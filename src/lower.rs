use vstd::prelude::*;

use crate::ast::{AssignOp, BinOp, Block, Branch, Expr, Param, Program, Root, Stmt, Term};
use crate::ir::{self, Func, IRNode, Value};
use crate::semantic::{
    add_params, add_with, check_expr, decl_at, decls, env_wf, expr_result, find_binding,
    lemma_lookup_found, lookup, params_env, program_checked, with_result, Binding,
};
use crate::symbol::{signature_valid, Symbol};
use crate::types::{copy_primitive, is_primitive, is_primitive_type, Type};

verus! {

/// The type an identifier operand carries: its binding's type.
pub open spec fn id_type(env: Seq<Binding>, n: Seq<char>) -> Type {
    match lookup(env, n) {
        Some(i) => if is_primitive(env[i].type_t) {
            env[i].type_t
        } else {
            Type::Unknown
        },
        None => Type::Unknown,
    }
}

/// The run of `Term` / `Eval` nodes for an expression. An operator comes
/// after its operands, the right one first; a call comes after its
/// arguments, the last one first. Replaying the run with an operand stack
/// then pops the left operand (or the first argument) first.
pub open spec fn lower_expr(e: Expr, env: Seq<Binding>) -> Seq<IRNode>
    decreases e, 0nat,
{
    match e {
        Expr::Term(t) => match *t {
            Term::Id(n) => seq![IRNode::Term(ir::Term { type_t: id_type(env, n@), value: Value::Id(n) })],
            Term::Num(v) => seq![IRNode::Term(ir::Term { type_t: Type::Int32, value: Value::Int32(v) })],
            Term::Expr(inner) => lower_expr(*inner, env),
        },
        Expr::Binary(op, l, r) => lower_expr(*r, env) + lower_expr(*l, env) + seq![IRNode::Eval(Func::Op(op))],
        Expr::Call(f, args) => lower_args(args@, env, args@.len()) + seq![IRNode::Eval(Func::DefFunc(f, args@.len() as usize))],
    }
}

/// The runs of the first `i` arguments, last one first.
pub open spec fn lower_args(args: Seq<Expr>, env: Seq<Binding>, i: nat) -> Seq<IRNode>
    decreases args, i,
{
    if i == 0 || i > args.len() {
        Seq::empty()
    } else {
        lower_expr(args[i - 1], env) + lower_args(args, env, (i - 1) as nat)
    }
}

/// Appends the run of `e` to `out`.
pub fn lower_expr_into(e: &Expr, env: &Vec<Binding>, out: &mut Vec<IRNode>)
    ensures
        final(out)@ == old(out)@ + lower_expr(*e, env@),
    decreases e, 0nat,
{
    match e {
        Expr::Term(t) => match &**t {
            Term::Id(n) => {
                proof { lemma_lookup_found(env@, n@); }
                let type_t = match find_binding(env, n) {
                    Some(i) => if is_primitive_type(&env[i].type_t) {
                        copy_primitive(&env[i].type_t)
                    } else {
                        Type::Unknown
                    },
                    None => Type::Unknown,
                };
                out.push(IRNode::Term(ir::Term { type_t, value: Value::Id(n.clone()) }));
                assert(final(out)@ =~= old(out)@ + lower_expr(*e, env@));
            },
            Term::Num(v) => {
                out.push(IRNode::Term(ir::Term { type_t: Type::Int32, value: Value::Int32(*v) }));
                assert(final(out)@ =~= old(out)@ + lower_expr(*e, env@));
            },
            Term::Expr(inner) => lower_expr_into(inner, env, out),
        },
        Expr::Binary(op, l, r) => {
            lower_expr_into(r, env, out);
            lower_expr_into(l, env, out);
            out.push(IRNode::Eval(Func::Op(*op)));
            assert(final(out)@ =~= old(out)@ + lower_expr(*e, env@));
        },
        Expr::Call(f, args) => {
            lower_args_into(args, env, out);
            out.push(IRNode::Eval(Func::DefFunc(Symbol { ident: f.ident.clone() }, args.len())));
            assert(final(out)@ =~= old(out)@ + lower_expr(*e, env@));
        },
    }
}

/// Appends the runs of all arguments, last one first.
pub fn lower_args_into(args: &Vec<Expr>, env: &Vec<Binding>, out: &mut Vec<IRNode>)
    ensures
        final(out)@ == old(out)@ + lower_args(args@, env@, args@.len()),
    decreases args@, args@.len() + 1,
{
    let mut i: usize = args.len();
    while i > 0
        invariant
            i <= args@.len(),
            out@ + lower_args(args@, env@, i as nat) == old(out)@ + lower_args(args@, env@, args@.len()),
        decreases i,
    {
        let ghost before = out@;
        lower_expr_into(&args[i - 1], env, out);
        assert(before + lower_args(args@, env@, i as nat) =~= out@ + lower_args(args@, env@, (i - 1) as nat));
        i -= 1;
    }
    assert(out@ + lower_args(args@, env@, 0) =~= out@);
}

/// The type of `e`, or `Unknown` where it has none.
pub open spec fn type_or_unknown(e: Expr, env: Seq<Binding>) -> Type {
    match expr_result(e, env) {
        Ok(t) => t,
        Err(_) => Type::Unknown,
    }
}

/// The operator behind a compound assignment.
pub open spec fn compound_op(op: AssignOp) -> BinOp {
    match op {
        AssignOp::SubAssign => BinOp::Sub,
        AssignOp::MultAssign => BinOp::Mult,
        AssignOp::DivAssign => BinOp::Div,
        _ => BinOp::Add,
    }
}

/// The nodes of one statement, and the bindings after it. A declaration
/// or store follows the run of its value; a compound assignment `x op= e`
/// is stored as `x = x op e`.
pub open spec fn lower_stmt(s: Stmt, env: Seq<Binding>) -> (Seq<IRNode>, Seq<Binding>)
    decreases s, 0nat,
{
    match s {
        Stmt::Assign(sym, _, e) => {
            let t = type_or_unknown(*e, env);
            (
                lower_expr(*e, env) + seq![IRNode::Assign(ir::Assign { type_t: t, symbol: sym })],
                if expr_result(*e, env) is Ok {
                    env.push(Binding { symbol: sym, type_t: t, mutable: true })
                } else {
                    env
                },
            )
        },
        Stmt::Reassign(sym, op, e) => {
            let bt = id_type(env, sym.ident@);
            let run = if op is Assign {
                lower_expr(*e, env)
            } else {
                lower_expr(*e, env) + seq![
                    IRNode::Term(ir::Term { type_t: bt, value: Value::Id(sym.ident) }),
                    IRNode::Eval(Func::Op(compound_op(op))),
                ]
            };
            (run + seq![IRNode::Reassign(ir::Reassign { type_t: bt, symbol: sym })], env)
        },
        Stmt::Call(f, args) => (
            lower_args(args@, env, args@.len()) + seq![IRNode::Eval(Func::DefFunc(f, args@.len() as usize)), IRNode::CallStmt],
            env,
        ),
        Stmt::If(bs, els) => (
            seq![IRNode::If] + lower_branches(bs@, env, 0) + (match els {
                None => Seq::empty(),
                Some(b) => seq![IRNode::ElseCase] + lower_block(b@, env, 0),
            }) + seq![IRNode::EndIf],
            env,
        ),
        Stmt::Return(e) => (lower_expr(*e, env) + seq![IRNode::Return], env),
        Stmt::FuncDef(_) => (Seq::empty(), env),
    }
}

/// The cases of an `if` chain from position `i` on: each condition's run,
/// `IfCase` for the first and `ElseIfCase` for the others, then the body.
pub open spec fn lower_branches(bs: Seq<Branch>, env: Seq<Binding>, i: nat) -> Seq<IRNode>
    decreases bs, bs.len() - i,
{
    if i >= bs.len() {
        Seq::empty()
    } else {
        lower_expr(bs[i as int].cond, env) + seq![if i == 0 { IRNode::IfCase } else { IRNode::ElseIfCase }]
            + lower_block(bs[i as int].block@, env, 0) + lower_branches(bs, env, i + 1)
    }
}

/// The nodes of a block from position `i` on.
pub open spec fn lower_block(b: Seq<Stmt>, env: Seq<Binding>, i: nat) -> Seq<IRNode>
    decreases b, b.len() - i,
{
    if i >= b.len() {
        Seq::empty()
    } else {
        lower_stmt(b[i as int], env).0 + lower_block(b, lower_stmt(b[i as int], env).1, i + 1)
    }
}

/// Appends the nodes of one statement; a declaration adds its binding.
pub fn lower_stmt_into(s: &Stmt, env: &mut Vec<Binding>, out: &mut Vec<IRNode>)
    requires
        env_wf(old(env)@),
    ensures
        env_wf(final(env)@),
        final(out)@ == old(out)@ + lower_stmt(*s, old(env)@).0,
        final(env)@ == lower_stmt(*s, old(env)@).1,
    decreases s, 0nat,
{
    match s {
        Stmt::Assign(sym, _, e) => {
            lower_expr_into(e, env, out);
            match check_expr(e, env) {
                Ok(t) => {
                    let t2 = copy_primitive(&t);
                    out.push(IRNode::Assign(ir::Assign { type_t: t, symbol: Symbol { ident: sym.ident.clone() } }));
                    env.push(Binding { symbol: Symbol { ident: sym.ident.clone() }, type_t: t2, mutable: true });
                },
                Err(_) => {
                    out.push(IRNode::Assign(ir::Assign { type_t: Type::Unknown, symbol: Symbol { ident: sym.ident.clone() } }));
                },
            }
            assert(final(out)@ =~= old(out)@ + lower_stmt(*s, old(env)@).0);
        },
        Stmt::Reassign(sym, op, e) => {
            proof { lemma_lookup_found(env@, sym.ident@); }
            let bt = match find_binding(env, &sym.ident) {
                Some(i) => if is_primitive_type(&env[i].type_t) {
                    copy_primitive(&env[i].type_t)
                } else {
                    Type::Unknown
                },
                None => Type::Unknown,
            };
            lower_expr_into(e, env, out);
            let bop = match op {
                AssignOp::Assign => None,
                AssignOp::AddAssign => Some(BinOp::Add),
                AssignOp::SubAssign => Some(BinOp::Sub),
                AssignOp::MultAssign => Some(BinOp::Mult),
                AssignOp::DivAssign => Some(BinOp::Div),
            };
            let bt2 = match &bt {
                Type::Unknown => Type::Unknown,
                t => copy_primitive(t),
            };
            if let Some(o) = bop {
                out.push(IRNode::Term(ir::Term { type_t: bt2, value: Value::Id(sym.ident.clone()) }));
                out.push(IRNode::Eval(Func::Op(o)));
            }
            out.push(IRNode::Reassign(ir::Reassign { type_t: bt, symbol: Symbol { ident: sym.ident.clone() } }));
            assert(final(out)@ =~= old(out)@ + lower_stmt(*s, old(env)@).0);
        },
        Stmt::Call(f, args) => {
            lower_args_into(args, env, out);
            out.push(IRNode::Eval(Func::DefFunc(Symbol { ident: f.ident.clone() }, args.len())));
            out.push(IRNode::CallStmt);
            assert(final(out)@ =~= old(out)@ + lower_stmt(*s, old(env)@).0);
        },
        Stmt::If(bs, els) => {
            out.push(IRNode::If);
            lower_branches_into(bs, env, out);
            match els {
                None => {},
                Some(b) => {
                    out.push(IRNode::ElseCase);
                    lower_block_into(b, env, out);
                },
            }
            out.push(IRNode::EndIf);
            assert(final(out)@ =~= old(out)@ + lower_stmt(*s, old(env)@).0);
        },
        Stmt::Return(e) => {
            lower_expr_into(e, env, out);
            out.push(IRNode::Return);
            assert(final(out)@ =~= old(out)@ + lower_stmt(*s, old(env)@).0);
        },
        Stmt::FuncDef(_) => {
            assert(final(out)@ =~= old(out)@ + lower_stmt(*s, old(env)@).0);
        },
    }
}

/// Appends the nodes of the cases of an `if` chain.
pub fn lower_branches_into(bs: &Vec<Branch>, env: &mut Vec<Binding>, out: &mut Vec<IRNode>)
    requires
        env_wf(old(env)@),
    ensures
        final(env)@ == old(env)@,
        final(out)@ == old(out)@ + lower_branches(bs@, old(env)@, 0),
    decreases bs@, bs@.len() + 1,
{
    let mut i: usize = 0;
    while i < bs.len()
        invariant
            env_wf(env@),
            env@ == old(env)@,
            i <= bs@.len(),
            out@ + lower_branches(bs@, env@, i as nat) == old(out)@ + lower_branches(bs@, old(env)@, 0),
        decreases bs@.len() - i,
    {
        let ghost before = out@;
        lower_expr_into(&bs[i].cond, env, out);
        if i == 0 {
            out.push(IRNode::IfCase);
        } else {
            out.push(IRNode::ElseIfCase);
        }
        lower_block_into(&bs[i].block, env, out);
        assert(before + lower_branches(bs@, env@, i as nat) =~= out@ + lower_branches(bs@, env@, (i + 1) as nat));
        i += 1;
    }
    assert(out@ + lower_branches(bs@, env@, i as nat) =~= out@);
}

/// Appends the nodes of a block; its bindings end with it.
pub fn lower_block_into(b: &Block, env: &mut Vec<Binding>, out: &mut Vec<IRNode>)
    requires
        env_wf(old(env)@),
    ensures
        final(env)@ == old(env)@,
        final(out)@ == old(out)@ + lower_block(b@, old(env)@, 0),
    decreases b@, b@.len() + 1,
{
    let base = env.len();
    let mut i: usize = 0;
    while i < b.len()
        invariant
            env_wf(env@),
            base == old(env)@.len(),
            base <= env@.len(),
            env@.subrange(0, base as int) == old(env)@,
            i <= b@.len(),
            out@ + lower_block(b@, env@, i as nat) == old(out)@ + lower_block(b@, old(env)@, 0),
        decreases b@.len() - i,
    {
        let ghost before = out@;
        let ghost env_before = env@;
        lower_stmt_into(&b[i], env, out);
        assert(before + lower_block(b@, env_before, i as nat) =~= out@ + lower_block(b@, env@, (i + 1) as nat));
        assert(env@.subrange(0, base as int) =~= old(env)@);
        i += 1;
    }
    assert(out@ + lower_block(b@, env@, i as nat) =~= out@);
    env.truncate(base);
}

/// The top-level value declarations from position `i` on, each after the
/// run of its initializer.
pub open spec fn lower_globals(ds: Seq<Stmt>, env: Seq<Binding>, i: nat) -> Seq<IRNode>
    decreases ds.len() - i,
{
    if i >= ds.len() {
        Seq::empty()
    } else {
        (match ds[i as int] {
            Stmt::Assign(sym, _, e) => lower_expr(*e, env) + seq![
                IRNode::Assign(ir::Assign { type_t: type_or_unknown(*e, env), symbol: sym }),
            ],
            _ => Seq::empty(),
        }) + lower_globals(ds, env, i + 1)
    }
}

/// One `Param` node per parameter from position `i` on.
pub open spec fn lower_params(ps: Seq<Param>, i: nat) -> Seq<IRNode>
    decreases ps.len() - i,
{
    if i >= ps.len() {
        Seq::empty()
    } else {
        seq![IRNode::Param(ir::Param { name: ps[i as int].name, type_t: ps[i as int].type_t })] + lower_params(ps, i + 1)
    }
}

/// The bindings in force in a body with a `with` clause `ws`.
pub open spec fn with_env(ws: Seq<crate::ast::WithVar>, env: Seq<Binding>) -> Seq<Binding> {
    match with_result(ws, env, 0) {
        Ok(e2) => e2,
        Err(_) => env,
    }
}

/// The function definitions from position `i` on: `FuncDef`, its
/// parameters, its body, `EndFuncDef`.
pub open spec fn lower_funcs(ds: Seq<Stmt>, env: Seq<Binding>, i: nat) -> Seq<IRNode>
    decreases ds.len() - i,
{
    if i >= ds.len() {
        Seq::empty()
    } else {
        (match ds[i as int] {
            Stmt::FuncDef(f) => seq![
                IRNode::FuncDef(ir::FuncDef { symbol: Symbol { ident: f.ident }, return_t: f.ret_t, arity: f.params@.len() as usize }),
            ] + lower_params(f.params@, 0) + lower_block(f.block@, params_env(f.params@, with_env(f.with@, env), 0), 0)
                + seq![IRNode::EndFuncDef],
            _ => Seq::empty(),
        }) + lower_funcs(ds, env, i + 1)
    }
}

pub open spec fn lower_body(p: Program, env: Seq<Binding>) -> Seq<IRNode> {
    match p {
        Program::NoWith(_, b) => lower_block(b@, env, 0),
        Program::With(_, ws, b) => lower_block(b@, with_env(ws@, env), 0),
    }
}

/// The whole IR of a checked file: the global section, the function
/// definitions, then the program body.
pub open spec fn lower_root_spec(root: Root, env: Seq<Binding>) -> Seq<IRNode> {
    let ds = decls(root);
    seq![IRNode::GlobalSection] + lower_globals(ds, env, 0) + seq![IRNode::EndGlobalSection]
        + lower_funcs(ds, env, 0) + lower_body(root.program, env)
}

fn lower_with(ws: &Vec<crate::ast::WithVar>, env: &mut Vec<Binding>)
    requires
        env_wf(old(env)@),
    ensures
        env_wf(final(env)@),
        final(env)@ == with_env(ws@, old(env)@),
        final(env)@.len() >= old(env)@.len(),
        final(env)@.subrange(0, old(env)@.len() as int) == old(env)@,
{
    let base = env.len();
    let ghost env0 = env@;
    match add_with(ws, env) {
        Ok(_) => {},
        Err(_) => {
            env.truncate(base);
            assert(env@ =~= env0);
        },
    }
}

/// Lowers a checked file to one flat sequence of IR nodes. `env` holds
/// the top-level bindings; it is left as it was.
pub fn lower_root(root: &Root, env: &mut Vec<Binding>) -> (r: Vec<IRNode>)
    requires
        exists|rank: Seq<usize>| program_checked(*root, old(env)@, rank),
    ensures
        final(env)@ == old(env)@,
        r@ == lower_root_spec(*root, old(env)@),
{
    let ghost ds = decls(*root);
    let ghost env0 = env@;
    proof {
        let rank = choose|rank: Seq<usize>| program_checked(*root, env@, rank);
        assert(program_checked(*root, env@, rank));
    }
    let n = env.len();
    let mut out: Vec<IRNode> = Vec::new();
    out.push(IRNode::GlobalSection);
    let mut k: usize = 0;
    while k < n
        invariant
            ds == decls(*root),
            n == ds.len(),
            env@ == env0,
            env_wf(env0),
            k <= n,
            out@ + lower_globals(ds, env0, k as nat) == seq![IRNode::GlobalSection] + lower_globals(ds, env0, 0),
        decreases n - k,
    {
        let ghost before = out@;
        if let Stmt::Assign(sym, _, e) = decl_at(root, k) {
            lower_expr_into(e, env, &mut out);
            let t = match check_expr(e, env) {
                Ok(t) => t,
                Err(_) => Type::Unknown,
            };
            out.push(IRNode::Assign(ir::Assign { type_t: t, symbol: Symbol { ident: sym.ident.clone() } }));
        }
        assert(before + lower_globals(ds, env0, k as nat) =~= out@ + lower_globals(ds, env0, (k + 1) as nat));
        k += 1;
    }
    out.push(IRNode::EndGlobalSection);
    assert(out@ =~= seq![IRNode::GlobalSection] + lower_globals(ds, env0, 0) + seq![IRNode::EndGlobalSection]);
    let ghost head = out@;
    k = 0;
    while k < n
        invariant
            ds == decls(*root),
            n == ds.len(),
            env@ == env0,
            env_wf(env0),
            exists|rank: Seq<usize>| program_checked(*root, env0, rank),
            k <= n,
            out@ + lower_funcs(ds, env0, k as nat) == head + lower_funcs(ds, env0, 0),
        decreases n - k,
    {
        let ghost before = out@;
        if let Stmt::FuncDef(f) = decl_at(root, k) {
            assert(signature_valid(**f));
            out.push(IRNode::FuncDef(ir::FuncDef { symbol: Symbol { ident: f.ident.clone() }, return_t: copy_primitive(&f.ret_t), arity: f.params.len() }));
            let ghost mid = out@;
            let mut j: usize = 0;
            while j < f.params.len()
                invariant
                    signature_valid(**f),
                    j <= f.params@.len(),
                    out@ + lower_params(f.params@, j as nat) == mid + lower_params(f.params@, 0),
                decreases f.params@.len() - j,
            {
                let ghost b2 = out@;
                out.push(IRNode::Param(ir::Param { name: f.params[j].name.clone(), type_t: copy_primitive(&f.params[j].type_t) }));
                assert(b2 + lower_params(f.params@, j as nat) =~= out@ + lower_params(f.params@, (j + 1) as nat));
                j += 1;
            }
            assert(out@ + lower_params(f.params@, j as nat) =~= out@);
            let base = env.len();
            lower_with(&f.with, env);
            add_params(&f.params, env);
            lower_block_into(&f.block, env, &mut out);
            env.truncate(base);
            assert(env@ =~= env0);
            out.push(IRNode::EndFuncDef);
        }
        assert(before + lower_funcs(ds, env0, k as nat) =~= out@ + lower_funcs(ds, env0, (k + 1) as nat));
        k += 1;
    }
    assert(out@ + lower_funcs(ds, env0, k as nat) =~= out@);
    match &root.program {
        Program::NoWith(_, b) => lower_block_into(b, env, &mut out),
        Program::With(_, ws, b) => {
            let base = env.len();
            lower_with(ws, env);
            lower_block_into(b, env, &mut out);
            env.truncate(base);
            assert(env@ =~= env0);
        },
    }
    assert(out@ =~= lower_root_spec(*root, env0));
    out
}

} // verus!
