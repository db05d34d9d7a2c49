use vstd::prelude::*;

use crate::ast::{BinOp, Expr, Term};
use crate::lower::{lower_args, lower_expr};
use crate::semantic::Binding;
use crate::ir::{is_expr_ir, Func, IRNode, Value};
use crate::types::{is_primitive, Type};

verus! {

/// Why C source could not be produced from an IR sequence.
#[derive(Debug, PartialEq, Eq)]
pub enum GenError {
    /// No global section, or one that is never closed.
    MissingGlobalSection,
    /// A section marker where code was expected.
    StrayMarker,
    /// An expression run that does not leave exactly one operand.
    MalformedExpression,
    /// A type with no C rendering.
    UnknownType,
}

pub open spec fn digit_char(d: nat) -> char {
    if d == 0 { '0' } else if d == 1 { '1' } else if d == 2 { '2' } else if d == 3 { '3' }
    else if d == 4 { '4' } else if d == 5 { '5' } else if d == 6 { '6' } else if d == 7 { '7' }
    else if d == 8 { '8' } else { '9' }
}

/// Decimal digits of `n`, without leading zeros.
pub open spec fn nat_digits(n: nat) -> Seq<char>
    decreases n,
{
    if n < 10 {
        seq![digit_char(n)]
    } else {
        nat_digits(n / 10).push(digit_char(n % 10))
    }
}

/// Decimal text of an integer: a minus sign when negative, then digits.
pub open spec fn decimal(n: int) -> Seq<char> {
    if n < 0 {
        seq!['-'] + nat_digits((-n) as nat)
    } else {
        nat_digits(n as nat)
    }
}

fn digit_str(d: u128) -> (r: &'static str)
    requires
        d < 10,
    ensures
        r@ == seq![digit_char(d as nat)],
{
    proof {
        reveal_strlit("0");
        reveal_strlit("1");
        reveal_strlit("2");
        reveal_strlit("3");
        reveal_strlit("4");
        reveal_strlit("5");
        reveal_strlit("6");
        reveal_strlit("7");
        reveal_strlit("8");
        reveal_strlit("9");
    }
    match d {
        0 => "0",
        1 => "1",
        2 => "2",
        3 => "3",
        4 => "4",
        5 => "5",
        6 => "6",
        7 => "7",
        8 => "8",
        _ => "9",
    }
}

/// Appends the decimal digits of `m`.
fn push_digits(m: u128, s: &mut String)
    ensures
        final(s)@ == old(s)@ + nat_digits(m as nat),
    decreases m,
{
    if m >= 10 {
        push_digits(m / 10, s);
    }
    s.append(digit_str(m % 10));
    assert(final(s)@ =~= old(s)@ + nat_digits(m as nat));
}

/// Decimal text of an integer.
fn int_text(n: i128) -> (r: String)
    ensures
        r@ == decimal(n as int),
{
    let mut s = String::new();
    if n < 0 {
        proof { reveal_strlit("-"); }
        s.append("-");
        let m: u128 = ((-(n + 1)) as u128) + 1;
        push_digits(m, &mut s);
    } else {
        push_digits(n as u128, &mut s);
    }
    assert(s@ =~= decimal(n as int));
    s
}

/// C spelling of a primitive type.
pub open spec fn type_text(t: Type) -> Seq<char> {
    match t {
        Type::Int32 => "int32_t"@,
        Type::Int64 => "int64_t"@,
        Type::UInt32 => "uint32_t"@,
        Type::UInt64 => "uint64_t"@,
        Type::Float32 => "float"@,
        Type::Float64 => "double"@,
        Type::Bool => "int32_t"@,
        _ => "char*"@,
    }
}

/// C spelling of a literal or name: integers with their width macro,
/// single-precision literals with an `F` suffix, booleans as 1 and 0.
pub open spec fn value_text(v: Value) -> Seq<char> {
    match v {
        Value::Int32(n) => "INT32_C("@ + decimal(n as int) + ")"@,
        Value::Int64(n) => "INT64_C("@ + decimal(n as int) + ")"@,
        Value::UInt32(n) => "UINT32_C("@ + decimal(n as int) + ")"@,
        Value::UInt64(n) => "UINT64_C("@ + decimal(n as int) + ")"@,
        Value::Float32(s) => s@ + "F"@,
        Value::Float64(s) => s@,
        Value::Bool(b) => if b { "1"@ } else { "0"@ },
        Value::Id(s) => s@,
    }
}

pub open spec fn op_text(op: BinOp) -> Seq<char> {
    match op {
        BinOp::Add => " + "@,
        BinOp::Sub => " - "@,
        BinOp::Mult => " * "@,
        BinOp::Div => " / "@,
        BinOp::Lt => " < "@,
        BinOp::Gt => " > "@,
        BinOp::Leq => " <= "@,
        BinOp::Geq => " >= "@,
        BinOp::Eq => " == "@,
        BinOp::Neq => " != "@,
    }
}

pub fn translate_type(type_t: &Type) -> (r: String)
    requires
        is_primitive(*type_t),
    ensures
        r@ == type_text(*type_t),
{
    let s = match type_t {
        Type::Int32 => "int32_t",
        Type::Int64 => "int64_t",
        Type::UInt32 => "uint32_t",
        Type::UInt64 => "uint64_t",
        Type::Float32 => "float",
        Type::Float64 => "double",
        Type::Bool => "int32_t",
        _ => "char*",
    };
    String::from_str(s)
}

fn wrap(head: &str, body: String, tail: &str) -> (r: String)
    ensures
        r@ == head@ + body@ + tail@,
{
    let mut r = String::from_str(head);
    r.append(body.as_str());
    r.append(tail);
    r
}

pub fn translate_value(value: &Value) -> (r: String)
    ensures
        r@ == value_text(*value),
{
    match value {
        Value::Int32(n) => wrap("INT32_C(", int_text(*n as i128), ")"),
        Value::Int64(n) => wrap("INT64_C(", int_text(*n as i128), ")"),
        Value::UInt32(n) => wrap("UINT32_C(", int_text(*n as i128), ")"),
        Value::UInt64(n) => wrap("UINT64_C(", int_text(*n as i128), ")"),
        Value::Float32(s) => {
            let mut r = s.clone();
            r.append("F");
            r
        },
        Value::Float64(s) => s.clone(),
        Value::Bool(b) => if *b {
            String::from_str("1")
        } else {
            String::from_str("0")
        },
        Value::Id(s) => s.clone(),
    }
}

pub fn is_expr_node(node: &IRNode) -> (r: bool)
    ensures
        r == is_expr_ir(*node),
{
    match node {
        IRNode::Term(_) | IRNode::Eval(_) => true,
        _ => false,
    }
}

/// The arguments of a call, taken from the top of the stack: the top one
/// first, separated by commas.
pub open spec fn pop_args(stack: Seq<Seq<char>>, k: nat) -> Seq<char>
    decreases k,
{
    if k == 0 {
        Seq::empty()
    } else if k == 1 {
        stack.last()
    } else {
        pop_args(stack, (k - 1) as nat) + ", "@ + stack[stack.len() - k]
    }
}

/// One step of the operand stack: a `Term` pushes its text; an operator
/// pops its left then its right operand and pushes them joined and
/// parenthesized; a call pops its arguments, first one first. `None` where
/// the stack runs short or the node is no part of an expression.
pub open spec fn replay_step(n: IRNode, stack: Seq<Seq<char>>) -> Option<Seq<Seq<char>>> {
    match n {
        IRNode::Term(t) => Some(stack.push(value_text(t.value))),
        IRNode::Eval(Func::Op(op)) => if stack.len() < 2 {
            None
        } else {
            let l = stack[stack.len() - 1];
            let r = stack[stack.len() - 2];
            Some(stack.subrange(0, stack.len() - 2).push("( "@ + l + op_text(op) + r + " )"@))
        },
        IRNode::Eval(Func::DefFunc(f, k)) => if stack.len() < k {
            None
        } else {
            Some(stack.subrange(0, stack.len() - k).push("( "@ + f.ident@ + "("@ + pop_args(stack, k as nat) + ")"@ + " )"@))
        },
        _ => None,
    }
}

/// Replays a run of nodes in order on an operand stack.
pub open spec fn replay(nodes: Seq<IRNode>, stack: Seq<Seq<char>>) -> Option<Seq<Seq<char>>>
    decreases nodes.len(),
{
    if nodes.len() == 0 {
        Some(stack)
    } else {
        match replay_step(nodes[0], stack) {
            None => None,
            Some(s2) => replay(nodes.drop_first(), s2),
        }
    }
}

/// Start of the longest run of `Term` / `Eval` nodes that ends just before `end`.
pub open spec fn run_start(ir: Seq<IRNode>, end: int) -> int
    decreases end,
{
    if end <= 0 || end > ir.len() || !is_expr_ir(ir[end - 1]) {
        end
    } else {
        run_start(ir, end - 1)
    }
}

/// The text of the expression whose run ends just before `end`, if its
/// replay leaves exactly one operand.
pub open spec fn expr_text(ir: Seq<IRNode>, end: int) -> Option<Seq<char>> {
    match replay(ir.subrange(run_start(ir, end), end), Seq::empty()) {
        Some(st) => if st.len() == 1 { Some(st[0]) } else { None },
        None => None,
    }
}

pub open spec fn texts(v: Seq<String>) -> Seq<Seq<char>> {
    v.map_values(|s: String| s@)
}

pub fn find_run_start(ir: &Vec<IRNode>, end: usize) -> (r: usize)
    requires
        end <= ir@.len(),
    ensures
        r == run_start(ir@, end as int),
        r <= end,
{
    let mut s: usize = end;
    while s > 0 && is_expr_node(&ir[s - 1])
        invariant
            s <= end <= ir@.len(),
            run_start(ir@, end as int) == run_start(ir@, s as int),
        decreases s,
    {
        s -= 1;
    }
    s
}

/// Renders the expression whose run ends just before `end`: the run is
/// replayed in order on an explicit stack of partly rendered text.
pub fn gen_expr(ir: &Vec<IRNode>, end: usize) -> (r: Result<String, GenError>)
    requires
        end <= ir@.len(),
    ensures
        match expr_text(ir@, end as int) {
            Some(t) => r matches Ok(s) && s@ == t,
            None => r == Err::<String, GenError>(GenError::MalformedExpression),
        },
{
    let start = find_run_start(ir, end);
    let ghost run = ir@.subrange(start as int, end as int);
    let mut stack: Vec<String> = Vec::new();
    let mut i: usize = start;
    assert(texts(stack@) =~= Seq::<Seq<char>>::empty());
    while i < end
        invariant
            start <= i <= end <= ir@.len(),
            start == run_start(ir@, end as int),
            run == ir@.subrange(start as int, end as int),
            replay(run, Seq::empty()) == replay(ir@.subrange(i as int, end as int), texts(stack@)),
        decreases end - i,
    {
        let ghost st0 = texts(stack@);
        assert(ir@.subrange(i as int, end as int).drop_first() =~= ir@.subrange(i + 1, end as int));
        assert(ir@.subrange(i as int, end as int)[0] == ir@[i as int]);
        match &ir[i] {
            IRNode::Term(t) => {
                stack.push(translate_value(&t.value));
                assert(texts(stack@) =~= st0.push(value_text(t.value)));
            },
            IRNode::Eval(Func::Op(op)) => {
                if stack.len() < 2 {
                    assert(replay_step(ir@[i as int], st0) is None);
                        return Err(GenError::MalformedExpression);
                }
                let ghost prev = stack@;
                let l = stack.pop().unwrap();
                let r = stack.pop().unwrap();
                assert(texts(prev)[st0.len() - 1] == l@);
                assert(texts(prev)[st0.len() - 2] == r@);
                let mut text = String::from_str("( ");
                text.append(l.as_str());
                let o = match op {
                    BinOp::Add => " + ",
                    BinOp::Sub => " - ",
                    BinOp::Mult => " * ",
                    BinOp::Div => " / ",
                    BinOp::Lt => " < ",
                    BinOp::Gt => " > ",
                    BinOp::Leq => " <= ",
                    BinOp::Geq => " >= ",
                    BinOp::Eq => " == ",
                    BinOp::Neq => " != ",
                };
                text.append(o);
                text.append(r.as_str());
                text.append(" )");
                stack.push(text);
                assert(texts(stack@) =~= st0.subrange(0, st0.len() - 2).push("( "@ + st0[st0.len() - 1] + op_text(*op) + st0[st0.len() - 2] + " )"@));
            },
            IRNode::Eval(Func::DefFunc(f, k)) => {
                let k = *k;
                if stack.len() < k {
                    return Err(GenError::MalformedExpression);
                }
                let ghost len0 = stack@.len();
                let mut args = String::new();
                let mut j: usize = 0;
                while j < k
                    invariant
                        j <= k <= len0,
                        stack@.len() == len0 - j,
                        texts(stack@) == st0.subrange(0, len0 - j),
                        st0.len() == len0,
                        args@ == pop_args(st0, j as nat),
                    decreases k - j,
                {
                    let ghost prev = stack@;
                    let a = stack.pop().unwrap();
                    assert(texts(prev)[len0 - j - 1] == a@);
                    if j > 0 {
                        args.append(", ");
                    }
                    args.append(a.as_str());
                    j += 1;
                    assert(texts(stack@) =~= st0.subrange(0, len0 - j));
                }
                let mut text = String::from_str("( ");
                text.append(f.ident.as_str());
                text.append("(");
                text.append(args.as_str());
                text.append(")");
                text.append(" )");
                stack.push(text);
                assert(texts(stack@) =~= st0.subrange(0, st0.len() - k).push("( "@ + f.ident@ + "("@ + pop_args(st0, k as nat) + ")"@ + " )"@));
            },
            _ => {
                assert(replay_step(ir@[i as int], st0) is None);
                return Err(GenError::MalformedExpression);
            },
        }
        i += 1;
    }
    assert(ir@.subrange(i as int, end as int) =~= Seq::<IRNode>::empty());
    if stack.len() != 1 {
        return Err(GenError::MalformedExpression);
    }
    let ghost prev = stack@;
    let r = stack.pop().unwrap();
    assert(texts(prev)[0] == r@);
    Ok(r)
}

/// The tokens that the node at `i` renders, or why it cannot be rendered.
/// Expression nodes render nothing themselves: the statement after their
/// run renders them. A function is never a runtime value, so a declaration
/// of function type renders nothing.
pub open spec fn node_result(ir: Seq<IRNode>, i: int) -> Result<Seq<Seq<char>>, GenError> {
    let expr = expr_text(ir, i);
    match ir[i] {
        IRNode::Term(_) | IRNode::Eval(_) | IRNode::Label(_) | IRNode::If => Ok(Seq::empty()),
        IRNode::Assign(a) => if a.type_t is Function {
            Ok(Seq::empty())
        } else if !is_primitive(a.type_t) {
            Err(GenError::UnknownType)
        } else {
            match expr {
                Some(e) => Ok(seq![type_text(a.type_t), a.symbol.ident@, "="@, e, ";"@]),
                None => Err(GenError::MalformedExpression),
            }
        },
        IRNode::Reassign(a) => match expr {
            Some(e) => Ok(seq![a.symbol.ident@, "="@, e, ";"@]),
            None => Err(GenError::MalformedExpression),
        },
        IRNode::IfCase => match expr {
            Some(e) => Ok(seq!["if"@, "("@, e, ")"@, "{"@]),
            None => Err(GenError::MalformedExpression),
        },
        IRNode::ElseIfCase => match expr {
            Some(e) => Ok(seq!["}"@, "else if"@, "("@, e, ")"@, "{"@]),
            None => Err(GenError::MalformedExpression),
        },
        IRNode::ElseCase => Ok(seq!["}"@, "else"@, "{"@]),
        IRNode::EndIf => Ok(seq!["}"@]),
        IRNode::Return => match expr {
            Some(e) => Ok(seq!["return"@, e, ";"@]),
            None => Err(GenError::MalformedExpression),
        },
        IRNode::CallStmt => match expr {
            Some(e) => Ok(seq![e, ";"@]),
            None => Err(GenError::MalformedExpression),
        },
        IRNode::FuncDef(d) => if !is_primitive(d.return_t) {
            Err(GenError::UnknownType)
        } else {
            Ok(seq![type_text(d.return_t), d.symbol.ident@, "("@] + if d.arity == 0 {
                seq![")"@, "{"@]
            } else {
                Seq::empty()
            })
        },
        IRNode::Param(p) => if !is_primitive(p.type_t) {
            Err(GenError::UnknownType)
        } else {
            Ok(seq![type_text(p.type_t), p.name@] + if i + 1 < ir.len() && ir[i + 1] is Param {
                seq![","@]
            } else {
                seq![")"@, "{"@]
            })
        },
        IRNode::EndFuncDef => Ok(seq!["}"@]),
        IRNode::GlobalSection | IRNode::EndGlobalSection => Err(GenError::StrayMarker),
    }
}

/// The tokens of the nodes in `[from, to)`, in order.
pub open spec fn code_result(ir: Seq<IRNode>, from: int, to: int) -> Result<Seq<Seq<char>>, GenError>
    decreases to - from,
{
    if from >= to {
        Ok(Seq::empty())
    } else {
        match node_result(ir, from) {
            Err(x) => Err(x),
            Ok(t) => prepend(t, code_result(ir, from + 1, to)),
        }
    }
}

pub open spec fn prepend(t: Seq<Seq<char>>, r: Result<Seq<Seq<char>>, GenError>) -> Result<Seq<Seq<char>>, GenError> {
    match r {
        Ok(rest) => Ok(t + rest),
        Err(x) => Err(x),
    }
}

/// Position of the first node from `i` on that is `GlobalSection`
/// (or `EndGlobalSection`, when `end` holds); `ir.len()` if there is none.
pub open spec fn find_marker(ir: Seq<IRNode>, i: int, end: bool) -> int
    decreases ir.len() - i,
{
    if i >= ir.len() || i < 0 {
        ir.len() as int
    } else if (end && ir[i] is EndGlobalSection) || (!end && ir[i] is GlobalSection) {
        i
    } else {
        find_marker(ir, i + 1, end)
    }
}

/// The tokens of a whole C file: the include line, the global section's
/// declarations, then everything after it inside `main`.
pub open spec fn source_result(ir: Seq<IRNode>) -> Result<Seq<Seq<char>>, GenError> {
    let gs = find_marker(ir, 0, false);
    let ge = find_marker(ir, gs + 1, true);
    if gs >= ir.len() || ge >= ir.len() {
        Err(GenError::MissingGlobalSection)
    } else {
        match code_result(ir, gs + 1, ge) {
            Err(x) => Err(x),
            Ok(globals) => match code_result(ir, ge + 1, ir.len() as int) {
                Err(x) => Err(x),
                Ok(body) => Ok(seq!["#include \"stdint.h\"\n"@] + globals + seq!["int main(){"@] + body + seq!["}"@]),
            },
        }
    }
}

/// Tokens joined by single spaces.
pub open spec fn join(t: Seq<Seq<char>>) -> Seq<char>
    decreases t.len(),
{
    if t.len() == 0 {
        Seq::empty()
    } else if t.len() == 1 {
        t[0]
    } else {
        join(t.drop_last()) + " "@ + t.last()
    }
}

/// Renders IR into C source text.
pub struct CGenContext {
    pub build_stack: Vec<IRNode>,
    pub outfile: String,
    pub code_buffer: Vec<String>,
}

impl CGenContext {
    pub fn new(build_stack: Vec<IRNode>, outfile: String) -> (r: CGenContext)
        ensures
            r.build_stack == build_stack,
            r.outfile == outfile,
            r.code_buffer@.len() == 0,
    {
        CGenContext { build_stack, outfile, code_buffer: Vec::new() }
    }

    fn add_code(&mut self, code: &str)
        ensures
            final(self).build_stack == old(self).build_stack,
            final(self).outfile == old(self).outfile,
            texts(final(self).code_buffer@) == texts(old(self).code_buffer@).push(code@),
    {
        self.code_buffer.push(String::from_str(code));
        assert(texts(self.code_buffer@) =~= texts(old(self).code_buffer@).push(code@));
    }

    fn add_string(&mut self, code: String)
        ensures
            final(self).build_stack == old(self).build_stack,
            final(self).outfile == old(self).outfile,
            texts(final(self).code_buffer@) == texts(old(self).code_buffer@).push(code@),
    {
        self.code_buffer.push(code);
        assert(texts(self.code_buffer@) =~= texts(old(self).code_buffer@).push(code@));
    }
}

impl CGenContext {
    /// Renders the node at `i`.
    fn gen_node(&mut self, i: usize) -> (r: Result<(), GenError>)
        requires
            i < old(self).build_stack@.len(),
        ensures
            final(self).build_stack == old(self).build_stack,
            final(self).outfile == old(self).outfile,
            match node_result(old(self).build_stack@, i as int) {
                Ok(t) => r is Ok && texts(final(self).code_buffer@) == texts(old(self).code_buffer@) + t,
                Err(x) => r == Err::<(), GenError>(x),
            },
    {
        let ghost b0 = texts(self.code_buffer@);
        let ghost ir = self.build_stack@;
        if let IRNode::Assign(a) = &self.build_stack[i] {
            if let Type::Function(_) = &a.type_t {
                assert(texts(self.code_buffer@) =~= b0 + Seq::<Seq<char>>::empty());
                return Ok(());
            }
        }
        let expr_needed = match &self.build_stack[i] {
            IRNode::Assign(_) | IRNode::Reassign(_) | IRNode::IfCase | IRNode::ElseIfCase | IRNode::Return
            | IRNode::CallStmt => true,
            _ => false,
        };
        let expr = if expr_needed {
            match gen_expr(&self.build_stack, i) {
                Ok(e) => e,
                Err(x) => {
                    if let IRNode::Assign(a) = &self.build_stack[i] {
                        if !crate::types::is_primitive_type(&a.type_t) {
                            return Err(GenError::UnknownType);
                        }
                    }
                    return Err(x);
                },
            }
        } else {
            String::new()
        };
        let n = self.build_stack.len();
        let next_is_param = i + 1 < n && match &self.build_stack[i + 1] {
            IRNode::Param(_) => true,
            _ => false,
        };
        match &self.build_stack[i] {
            IRNode::Term(_) | IRNode::Eval(_) | IRNode::Label(_) | IRNode::If => {
                assert(texts(self.code_buffer@) =~= b0 + Seq::<Seq<char>>::empty());
            },
            IRNode::Assign(a) => {
                if !crate::types::is_primitive_type(&a.type_t) {
                    return Err(GenError::UnknownType);
                }
                let t = translate_type(&a.type_t);
                let name = a.symbol.ident.clone();
                self.add_string(t);
                self.add_string(name);
                self.add_code("=");
                self.add_string(expr);
                self.add_code(";");
                assert(texts(self.code_buffer@) =~= b0 + node_result(ir, i as int)->Ok_0);
            },
            IRNode::Reassign(a) => {
                let name = a.symbol.ident.clone();
                self.add_string(name);
                self.add_code("=");
                self.add_string(expr);
                self.add_code(";");
                assert(texts(self.code_buffer@) =~= b0 + node_result(ir, i as int)->Ok_0);
            },
            IRNode::IfCase => {
                self.add_code("if");
                self.add_code("(");
                self.add_string(expr);
                self.add_code(")");
                self.add_code("{");
                assert(texts(self.code_buffer@) =~= b0 + node_result(ir, i as int)->Ok_0);
            },
            IRNode::ElseIfCase => {
                self.add_code("}");
                self.add_code("else if");
                self.add_code("(");
                self.add_string(expr);
                self.add_code(")");
                self.add_code("{");
                assert(texts(self.code_buffer@) =~= b0 + node_result(ir, i as int)->Ok_0);
            },
            IRNode::ElseCase => {
                self.add_code("}");
                self.add_code("else");
                self.add_code("{");
                assert(texts(self.code_buffer@) =~= b0 + node_result(ir, i as int)->Ok_0);
            },
            IRNode::EndIf | IRNode::EndFuncDef => {
                self.add_code("}");
                assert(texts(self.code_buffer@) =~= b0 + node_result(ir, i as int)->Ok_0);
            },
            IRNode::Return => {
                self.add_code("return");
                self.add_string(expr);
                self.add_code(";");
                assert(texts(self.code_buffer@) =~= b0 + node_result(ir, i as int)->Ok_0);
            },
            IRNode::CallStmt => {
                self.add_string(expr);
                self.add_code(";");
                assert(texts(self.code_buffer@) =~= b0 + node_result(ir, i as int)->Ok_0);
            },
            IRNode::FuncDef(d) => {
                if !crate::types::is_primitive_type(&d.return_t) {
                    return Err(GenError::UnknownType);
                }
                let t = translate_type(&d.return_t);
                let name = d.symbol.ident.clone();
                let arity = d.arity;
                self.add_string(t);
                self.add_string(name);
                self.add_code("(");
                if arity == 0 {
                    self.add_code(")");
                    self.add_code("{");
                }
                assert(texts(self.code_buffer@) =~= b0 + node_result(ir, i as int)->Ok_0);
            },
            IRNode::Param(p) => {
                if !crate::types::is_primitive_type(&p.type_t) {
                    return Err(GenError::UnknownType);
                }
                let t = translate_type(&p.type_t);
                let name = p.name.clone();
                self.add_string(t);
                self.add_string(name);
                if next_is_param {
                    self.add_code(",");
                } else {
                    self.add_code(")");
                    self.add_code("{");
                }
                assert(texts(self.code_buffer@) =~= b0 + node_result(ir, i as int)->Ok_0);
            },
            IRNode::GlobalSection | IRNode::EndGlobalSection => return Err(GenError::StrayMarker),
        }
        Ok(())
    }

    /// Renders the nodes in `[from, to)`, one handler per node kind.
    fn gen_code(&mut self, from: usize, to: usize) -> (r: Result<(), GenError>)
        requires
            from <= to <= old(self).build_stack@.len(),
        ensures
            final(self).build_stack == old(self).build_stack,
            final(self).outfile == old(self).outfile,
            match code_result(old(self).build_stack@, from as int, to as int) {
                Ok(t) => r is Ok && texts(final(self).code_buffer@) == texts(old(self).code_buffer@) + t,
                Err(x) => r == Err::<(), GenError>(x),
            },
    {
        let ghost ir = self.build_stack@;
        let ghost b0 = texts(self.code_buffer@);
        let mut i: usize = from;
        assert(b0 =~= b0 + Seq::<Seq<char>>::empty());
        while i < to
            invariant
                from <= i <= to <= ir.len(),
                self.build_stack@ == ir,
                self.build_stack == old(self).build_stack,
                self.outfile == old(self).outfile,
                b0 == texts(old(self).code_buffer@),
                b0.len() <= texts(self.code_buffer@).len(),
                code_result(ir, from as int, to as int) == prepend(texts(self.code_buffer@).subrange(b0.len() as int, texts(self.code_buffer@).len() as int), code_result(ir, i as int, to as int)),
                texts(self.code_buffer@) == b0 + texts(self.code_buffer@).subrange(b0.len() as int, texts(self.code_buffer@).len() as int),
            decreases to - i,
        {
            let ghost acc = texts(self.code_buffer@).subrange(b0.len() as int, texts(self.code_buffer@).len() as int);
            match self.gen_node(i) {
                Err(x) => return Err(x),
                Ok(_) => {},
            }
            let ghost t = node_result(ir, i as int)->Ok_0;
            let ghost acc2 = texts(self.code_buffer@).subrange(b0.len() as int, texts(self.code_buffer@).len() as int);
            assert(acc2 =~= acc + t);
            assert(texts(self.code_buffer@) =~= b0 + acc2);
            proof {
                if code_result(ir, (i + 1) as int, to as int) is Ok {
                    let rest = code_result(ir, (i + 1) as int, to as int)->Ok_0;
                    assert((acc + t) + rest =~= acc + (t + rest));
                }
            }
            i += 1;
        }
        Ok(())
    }

    /// Renders the whole IR into the code buffer, replacing what it held.
    pub fn gen(&mut self) -> (r: Result<(), GenError>)
        ensures
            final(self).build_stack == old(self).build_stack,
            final(self).outfile == old(self).outfile,
            match source_result(old(self).build_stack@) {
                Ok(t) => r is Ok && texts(final(self).code_buffer@) == t,
                Err(x) => r == Err::<(), GenError>(x),
            },
    {
        let ghost ir = self.build_stack@;
        self.code_buffer = Vec::new();
        let n = self.build_stack.len();
        let gs = self.find_marker_from(0, false);
        if gs >= n {
            return Err(GenError::MissingGlobalSection);
        }
        let ge = self.find_marker_from(gs + 1, true);
        if ge >= n {
            return Err(GenError::MissingGlobalSection);
        }
        self.add_code("#include \"stdint.h\"\n");
        self.gen_code(gs + 1, ge)?;
        self.add_code("int main(){");
        self.gen_code(ge + 1, n)?;
        self.add_code("}");
        assert(texts(self.code_buffer@) =~= source_result(ir)->Ok_0);
        Ok(())
    }

    fn find_marker_from(&self, from: usize, end: bool) -> (r: usize)
        requires
            from <= self.build_stack@.len(),
        ensures
            r == find_marker(self.build_stack@, from as int, end),
            from <= r <= self.build_stack@.len(),
    {
        let mut i = from;
        while i < self.build_stack.len()
            invariant
                from <= i <= self.build_stack@.len(),
                find_marker(self.build_stack@, from as int, end) == find_marker(self.build_stack@, i as int, end),
            decreases self.build_stack@.len() - i,
        {
            let hit = match &self.build_stack[i] {
                IRNode::GlobalSection => !end,
                IRNode::EndGlobalSection => end,
                _ => false,
            };
            if hit {
                return i;
            }
            i += 1;
        }
        i
    }

    /// The rendered source: the buffer's tokens joined by spaces.
    pub fn source(&self) -> (r: String)
        ensures
            r@ == join(texts(self.code_buffer@)),
    {
        let mut r = String::new();
        let mut i: usize = 0;
        while i < self.code_buffer.len()
            invariant
                i <= self.code_buffer@.len(),
                r@ == join(texts(self.code_buffer@).subrange(0, i as int)),
            decreases self.code_buffer@.len() - i,
        {
            let ghost t = texts(self.code_buffer@);
            assert(t.subrange(0, i + 1).drop_last() =~= t.subrange(0, i as int));
            if i > 0 {
                r.append(" ");
            }
            r.append(self.code_buffer[i].as_str());
            i += 1;
        }
        assert(texts(self.code_buffer@).subrange(0, i as int) =~= texts(self.code_buffer@));
        r
    }
}

/// An expression in C syntax with every operation parenthesized, so that
/// the text fixes the order of evaluation whatever C's precedence rules.
pub open spec fn infix(e: Expr) -> Seq<char>
    decreases e, 0nat,
{
    match e {
        Expr::Term(t) => match *t {
            Term::Id(n) => n@,
            Term::Num(v) => value_text(Value::Int32(v)),
            Term::Expr(inner) => infix(*inner),
        },
        Expr::Binary(op, l, r) => "( "@ + infix(*l) + op_text(op) + infix(*r) + " )"@,
        Expr::Call(f, args) => "( "@ + f.ident@ + "("@ + infix_args(args@, args@.len()) + ")"@ + " )"@,
    }
}

/// The first `k` arguments in C syntax, separated by commas.
pub open spec fn infix_args(args: Seq<Expr>, k: nat) -> Seq<char>
    decreases args, k,
{
    if k == 0 || k > args.len() {
        Seq::empty()
    } else if k == 1 {
        infix(args[0])
    } else {
        infix_args(args, (k - 1) as nat) + ", "@ + infix(args[k - 1])
    }
}

/// The operands that the runs of the first `k` arguments leave: the last
/// argument deepest, the first on top.
pub open spec fn arg_stack(args: Seq<Expr>, k: nat) -> Seq<Seq<char>>
    decreases k,
{
    if k == 0 || k > args.len() {
        Seq::empty()
    } else {
        seq![infix(args[k - 1])] + arg_stack(args, (k - 1) as nat)
    }
}

/// Replaying two runs one after the other is replaying their concatenation.
pub proof fn lemma_replay_append(a: Seq<IRNode>, b: Seq<IRNode>, s: Seq<Seq<char>>)
    ensures
        replay(a + b, s) == match replay(a, s) {
            Some(s2) => replay(b, s2),
            None => None,
        },
    decreases a.len(),
{
    if a.len() > 0 {
        assert((a + b).drop_first() =~= a.drop_first() + b);
        assert((a + b)[0] == a[0]);
        if let Some(s2) = replay_step(a[0], s) {
            lemma_replay_append(a.drop_first(), b, s2);
        }
    } else {
        assert(a + b =~= b);
    }
}

proof fn lemma_arg_stack(args: Seq<Expr>, k: nat)
    requires
        k <= args.len(),
    ensures
        arg_stack(args, k).len() == k,
        forall|j: int| 0 <= j < k ==> #[trigger] arg_stack(args, k)[j] == infix(args[k - 1 - j]),
    decreases k,
{
    if k > 0 {
        lemma_arg_stack(args, (k - 1) as nat);
        assert forall|j: int| 0 <= j < k implies #[trigger] arg_stack(args, k)[j] == infix(args[k - 1 - j]) by {
            if j > 0 {
                assert(arg_stack(args, k)[j] == arg_stack(args, (k - 1) as nat)[j - 1]);
            }
        }
    }
}

proof fn lemma_pop_args(args: Seq<Expr>, s: Seq<Seq<char>>, n: nat, k: nat)
    requires
        k <= n <= args.len(),
    ensures
        pop_args(s + arg_stack(args, n), k) == infix_args(args, k),
    decreases k,
{
    lemma_arg_stack(args, n);
    let st = s + arg_stack(args, n);
    if k >= 1 {
        assert(st[st.len() - k] == arg_stack(args, n)[n - k]);
        if k == 1 {
            assert(st.last() == st[st.len() - 1]);
        } else {
            lemma_pop_args(args, s, n, (k - 1) as nat);
        }
    }
}

/// Rendering inverts lowering: replaying the run that lowering gives an
/// expression pushes exactly the expression's parenthesized infix text, so
/// the flat encoding loses none of the expression's structure.
pub proof fn lemma_render_round_trip(e: Expr, env: Seq<Binding>, s: Seq<Seq<char>>)
    ensures
        replay(lower_expr(e, env), s) == Some(s.push(infix(e))),
    decreases e, 0nat,
{
    match e {
        Expr::Term(t) => match *t {
            Term::Expr(inner) => lemma_render_round_trip(*inner, env, s),
            _ => {
                let run = lower_expr(e, env);
                assert(run.drop_first() =~= Seq::<IRNode>::empty());
                assert(replay(run.drop_first(), s.push(infix(e))) == Some(s.push(infix(e))));
                assert(replay_step(run[0], s) == Some(s.push(infix(e))));
            },
        },
        Expr::Binary(op, l, r) => {
            let lr = lower_expr(*r, env);
            let ll = lower_expr(*l, env);
            let tail = seq![IRNode::Eval(Func::Op(op))];
            assert(lower_expr(e, env) == (lr + ll) + tail);
            lemma_replay_append(lr + ll, tail, s);
            lemma_replay_append(lr, ll, s);
            lemma_render_round_trip(*r, env, s);
            lemma_render_round_trip(*l, env, s.push(infix(*r)));
            let st = s.push(infix(*r)).push(infix(*l));
            assert(tail.drop_first() =~= Seq::<IRNode>::empty());
            assert(st.subrange(0, st.len() - 2) =~= s);
            assert(replay(lr + ll, s) == Some(st));
            assert(replay(tail.drop_first(), s.push(infix(e))) == Some(s.push(infix(e))));
            assert(replay(tail, st) == Some(s.push(infix(e))));
        },
        Expr::Call(f, args) => {
            let n = args@.len();
            assert(n == args.len() as nat);
            let la = lower_args(args@, env, n);
            let tail = seq![IRNode::Eval(Func::DefFunc(f, n as usize))];
            lemma_replay_append(la, tail, s);
            lemma_args_round_trip(args@, env, n, s);
            lemma_arg_stack(args@, n);
            let st = s + arg_stack(args@, n);
            assert(tail.drop_first() =~= Seq::<IRNode>::empty());
            assert(st.subrange(0, st.len() - n) =~= s);
            lemma_pop_args(args@, s, n, n);
            assert(replay(la, s) == Some(st));
            assert(replay_step(tail[0], st) == Some(s.push(infix(e))));
            assert(replay(tail.drop_first(), s.push(infix(e))) == Some(s.push(infix(e))));
            assert(replay(tail, st) == Some(s.push(infix(e))));
        },
    }
}

/// Replaying the argument runs leaves the arguments' texts on the stack.
pub proof fn lemma_args_round_trip(args: Seq<Expr>, env: Seq<Binding>, k: nat, s: Seq<Seq<char>>)
    requires
        k <= args.len(),
    ensures
        replay(lower_args(args, env, k), s) == Some(s + arg_stack(args, k)),
    decreases args, k,
{
    if k == 0 {
        assert(s + arg_stack(args, k) =~= s);
    } else {
        let a = lower_expr(args[k - 1], env);
        let rest = lower_args(args, env, (k - 1) as nat);
        lemma_replay_append(a, rest, s);
        lemma_render_round_trip(args[k - 1], env, s);
        lemma_args_round_trip(args, env, (k - 1) as nat, s.push(infix(args[k - 1])));
        assert(s.push(infix(args[k - 1])) + arg_stack(args, (k - 1) as nat) =~= s + arg_stack(args, k));
    }
}

} // verus!
