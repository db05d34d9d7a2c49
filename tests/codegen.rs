use rascal::ast::{AssignOp, BinOp, Branch, Expr, Func as FuncDecl, Param, Program, Root, Stmt, Term};
use rascal::backends::c::{gen_expr, is_expr_node, translate_type, translate_value, CGenContext, GenError};
use rascal::ir::{Assign, Func, IRNode, Value};
use rascal::lower::lower_root;
use rascal::semantic::analyze;
use rascal::symbol::Symbol;
use rascal::types::{FunctionType, Type};

fn sym(s: &str) -> Symbol {
    Symbol { ident: s.to_string() }
}

fn num(v: i32) -> Expr {
    Expr::Term(Box::new(Term::Num(v)))
}

fn id(s: &str) -> Expr {
    Expr::Term(Box::new(Term::Id(s.to_string())))
}

fn bin(op: BinOp, l: Expr, r: Expr) -> Expr {
    Expr::Binary(op, Box::new(l), Box::new(r))
}

fn compile(root: &Root) -> Result<String, GenError> {
    let mut a = analyze(root).unwrap();
    let ir = lower_root(root, &mut a.globals);
    let mut ctx = CGenContext::new(ir, "a.out".to_string());
    ctx.gen()?;
    Ok(ctx.source())
}

fn term(v: i32) -> IRNode {
    IRNode::Term(rascal::ir::Term { type_t: Type::Int32, value: Value::Int32(v) })
}

#[test]
fn precedence_survives_round_trip() {
    let e = bin(BinOp::Add, num(2), Expr::Term(Box::new(Term::Expr(Box::new(bin(BinOp::Mult, num(3), num(4)))))));
    let root = Root {
        preblock: vec![],
        program: Program::NoWith(sym("p"), vec![Stmt::Assign(sym("r"), Type::Unknown, Box::new(e))]),
        postblock: vec![],
    };
    let src = compile(&root).unwrap();
    assert_eq!(
        src,
        "#include \"stdint.h\"\n int main(){ int32_t r = ( INT32_C(2) + ( INT32_C(3) * INT32_C(4) ) ) ; }"
    );
}

#[test]
fn lowering_orders_operands_for_replay() {
    let e = bin(BinOp::Sub, num(7), num(1));
    let root = Root {
        preblock: vec![Stmt::Assign(sym("g"), Type::Unknown, Box::new(e))],
        program: Program::NoWith(sym("p"), vec![]),
        postblock: vec![],
    };
    let mut a = analyze(&root).unwrap();
    let ir = lower_root(&root, &mut a.globals);
    assert_eq!(
        ir,
        vec![
            IRNode::GlobalSection,
            term(1),
            term(7),
            IRNode::Eval(Func::Op(BinOp::Sub)),
            IRNode::Assign(Assign { type_t: Type::Int32, symbol: sym("g") }),
            IRNode::EndGlobalSection,
        ]
    );
    let mut ctx = CGenContext::new(ir, "a.out".to_string());
    ctx.gen().unwrap();
    assert_eq!(ctx.source(), "#include \"stdint.h\"\n int32_t g = ( INT32_C(7) - INT32_C(1) ) ; int main(){ }");
}

#[test]
fn functions_ifs_and_calls_render() {
    let f = FuncDecl {
        ret_t: Type::Int32,
        params: vec![Param { type_t: Type::Int32, name: "a".to_string() }, Param { type_t: Type::Int32, name: "b".to_string() }],
        with: vec![],
        ident: "f".to_string(),
        block: vec![Stmt::Return(Box::new(bin(BinOp::Sub, id("a"), id("b"))))],
    };
    let body = vec![
        Stmt::Assign(sym("x"), Type::Unknown, Box::new(Expr::Call(sym("f"), vec![num(5), num(3)]))),
        Stmt::If(
            vec![
                Branch { cond: bin(BinOp::Eq, id("x"), num(2)), block: vec![Stmt::Reassign(sym("x"), AssignOp::MultAssign, Box::new(num(3)))] },
                Branch { cond: bin(BinOp::Lt, id("x"), num(0)), block: vec![] },
            ],
            Some(vec![Stmt::Call(sym("f"), vec![id("x"), num(1)])]),
        ),
    ];
    let root = Root { preblock: vec![Stmt::FuncDef(Box::new(f))], program: Program::NoWith(sym("p"), body), postblock: vec![] };
    let src = compile(&root).unwrap();
    assert_eq!(
        src,
        "#include \"stdint.h\"\n int main(){ int32_t f ( int32_t a , int32_t b ) { return ( a - b ) ; } \
int32_t x = ( f(INT32_C(5), INT32_C(3)) ) ; if ( ( x == INT32_C(2) ) ) { x = ( x * INT32_C(3) ) ; } \
else if ( ( x < INT32_C(0) ) ) { } else { ( f(x, INT32_C(1)) ) ; } }"
    );
}

#[test]
fn translations() {
    assert_eq!(translate_type(&Type::Int64), "int64_t");
    assert_eq!(translate_type(&Type::Bool), "int32_t");
    assert_eq!(translate_type(&Type::Float64), "double");
    assert_eq!(translate_type(&Type::String), "char*");
    assert_eq!(translate_value(&Value::Int32(-42)), "INT32_C(-42)");
    assert_eq!(translate_value(&Value::UInt64(18446744073709551615)), "UINT64_C(18446744073709551615)");
    assert_eq!(translate_value(&Value::Int64(0)), "INT64_C(0)");
    assert_eq!(translate_value(&Value::Int64(i64::MIN)), "INT64_C(-9223372036854775808)");
    assert_eq!(translate_value(&Value::UInt32(1070)), "UINT32_C(1070)");
    assert_eq!(translate_value(&Value::Float32("1.5".to_string())), "1.5F");
    assert_eq!(translate_value(&Value::Float64("2.25".to_string())), "2.25");
    assert_eq!(translate_value(&Value::Bool(true)), "1");
    assert_eq!(translate_value(&Value::Bool(false)), "0");
    assert_eq!(translate_value(&Value::Id("v".to_string())), "v");
}

#[test]
fn expression_runs() {
    assert!(is_expr_node(&term(1)));
    assert!(!is_expr_node(&IRNode::Return));
    let ir = vec![IRNode::If, term(4), term(9), IRNode::Eval(Func::Op(BinOp::Div)), IRNode::Return];
    assert_eq!(gen_expr(&ir, 4).unwrap(), "( INT32_C(9) / INT32_C(4) )");
    let short = vec![IRNode::If, term(4), IRNode::Eval(Func::Op(BinOp::Div)), IRNode::Return];
    assert_eq!(gen_expr(&short, 3), Err(GenError::MalformedExpression));
    let two = vec![term(4), term(5), IRNode::Return];
    assert_eq!(gen_expr(&two, 2), Err(GenError::MalformedExpression));
}

#[test]
fn generation_errors() {
    let mut ctx = CGenContext::new(vec![IRNode::Return], "a.out".to_string());
    assert_eq!(ctx.gen(), Err(GenError::MissingGlobalSection));
    let mut ctx = CGenContext::new(vec![IRNode::GlobalSection, IRNode::EndGlobalSection, IRNode::GlobalSection], "a.out".to_string());
    assert_eq!(ctx.gen(), Err(GenError::StrayMarker));
    let bad = vec![IRNode::GlobalSection, term(1), IRNode::Assign(Assign { type_t: Type::Unknown, symbol: sym("x") }), IRNode::EndGlobalSection];
    let mut ctx = CGenContext::new(bad, "a.out".to_string());
    assert_eq!(ctx.gen(), Err(GenError::UnknownType));
}

#[test]
fn function_typed_declaration_renders_nothing() {
    let fty = Type::Function(FunctionType { params_t: vec![Type::Int32], return_t: Box::new(Type::Int32) });
    let ir = vec![
        IRNode::GlobalSection,
        IRNode::EndGlobalSection,
        IRNode::Term(rascal::ir::Term { type_t: Type::Int32, value: Value::Id("f".to_string()) }),
        IRNode::Assign(Assign { type_t: fty, symbol: sym("g") }),
    ];
    let mut ctx = CGenContext::new(ir, "a.out".to_string());
    assert_eq!(ctx.gen(), Ok(()));
    assert_eq!(ctx.source(), "#include \"stdint.h\"\n int main(){ }");
}
