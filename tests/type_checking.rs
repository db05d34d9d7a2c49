use rascal::ast::{AssignOp, BinOp, Branch, Expr, Func, Param, Program, Root, Stmt, Term, WithVar};
use rascal::semantic::{analyze, new_state, SemanticError};
use rascal::symbol::Symbol;
use rascal::types::Type;

fn sym(s: &str) -> Symbol {
    Symbol { ident: s.to_string() }
}

fn id(s: &str) -> Expr {
    Expr::Term(Box::new(Term::Id(s.to_string())))
}

fn num(v: i32) -> Expr {
    Expr::Term(Box::new(Term::Num(v)))
}

fn bin(op: BinOp, l: Expr, r: Expr) -> Expr {
    Expr::Binary(op, Box::new(l), Box::new(r))
}

fn let_(name: &str, annot: Type, e: Expr) -> Stmt {
    Stmt::Assign(sym(name), annot, Box::new(e))
}

fn set(name: &str, op: AssignOp, e: Expr) -> Stmt {
    Stmt::Reassign(sym(name), op, Box::new(e))
}

fn call(f: &str, args: Vec<Expr>) -> Expr {
    Expr::Call(sym(f), args)
}

fn param(name: &str, t: Type) -> Param {
    Param { type_t: t, name: name.to_string() }
}

fn func(name: &str, params: Vec<Param>, ret: Type, block: Vec<Stmt>) -> Stmt {
    Stmt::FuncDef(Box::new(Func { ret_t: ret, params, with: vec![], ident: name.to_string(), block }))
}

fn program(pre: Vec<Stmt>, body: Vec<Stmt>, post: Vec<Stmt>) -> Root {
    Root { preblock: pre, program: Program::NoWith(sym("main_program"), body), postblock: post }
}

fn if_(cases: Vec<(Expr, Vec<Stmt>)>, els: Option<Vec<Stmt>>) -> Stmt {
    Stmt::If(cases.into_iter().map(|(cond, block)| Branch { cond, block }).collect(), els)
}

#[test]
fn type_checking_lets_inferred() {
    let root = program(vec![], vec![let_("x", Type::Unknown, num(9)), let_("y", Type::Unknown, num(10))], vec![]);
    let mut state = new_state(root);
    assert!(state.build().is_ok());
}

#[test]
fn type_checking_passing1() {
    let root = program(vec![], vec![let_("x", Type::Int32, num(431))], vec![]);
    let mut state = new_state(root);
    let build_res = state.build();
    assert!(build_res.is_ok());
}

#[test]
fn type_checking_passing2() {
    let foo = func(
        "foo",
        vec![param("a", Type::Float32), param("b", Type::Float32)],
        Type::Float32,
        vec![let_("c", Type::Unknown, id("a")), set("c", AssignOp::MultAssign, id("b"))],
    );
    let baz = func(
        "baz",
        vec![param("x", Type::Int32), param("y", Type::Int32), param("z", Type::Int32)],
        Type::Int32,
        vec![let_("w", Type::Unknown, bin(BinOp::Add, bin(BinOp::Add, id("x"), id("y")), id("z")))],
    );
    let body = vec![
        let_("x", Type::Int32, num(431)),
        let_("test", Type::Unknown, call("baz", vec![id("x"), id("x"), id("x")])),
    ];
    let root = program(vec![foo, baz], body, vec![]);
    let mut state = new_state(root);
    let build_res = state.build();
    assert!(build_res.is_ok());
}

#[test]
fn type_checking_func_failing1() {
    let foo = func(
        "foo",
        vec![param("a", Type::Int32), param("b", Type::Float32)],
        Type::Float32,
        vec![let_("c", Type::Unknown, id("a")), let_("d", Type::Unknown, id("b"))],
    );
    let body = vec![
        let_("x", Type::Int32, num(431)),
        let_("test", Type::Unknown, call("foo", vec![id("x"), id("x")])),
    ];
    let root = program(vec![foo], body, vec![]);
    let mut state = new_state(root);
    let build_res = state.build();
    assert_eq!(
        build_res,
        Err(SemanticError::ArgMismatch("foo".to_string(), 1, Type::Float32, Type::Int32))
    );
}

#[test]
fn type_checking_ifs_passing1() {
    let body = vec![if_(vec![(bin(BinOp::Eq, id("x"), num(5)), vec![set("x", AssignOp::Assign, num(10))])], None)];
    let root = program(vec![let_("x", Type::Int32, num(4))], body, vec![]);
    let mut state = new_state(root);
    let build_res = state.build();
    assert!(build_res.is_ok());
}

#[test]
fn type_checking_ifs_passing2() {
    let body = vec![
        if_(vec![(bin(BinOp::Geq, id("x"), num(4)), vec![let_("y", Type::Unknown, num(2))])], None),
        if_(
            vec![
                (bin(BinOp::Neq, id("x"), num(5)), vec![set("x", AssignOp::Assign, num(10))]),
                (bin(BinOp::Eq, id("x"), num(6)), vec![set("x", AssignOp::Assign, num(11))]),
            ],
            Some(vec![set("x", AssignOp::Assign, num(12))]),
        ),
    ];
    let root = program(vec![let_("x", Type::Unknown, num(4))], body, vec![]);
    let mut state = new_state(root);
    let build_res = state.build();
    assert!(build_res.is_ok());
}

#[test]
fn branch_lets_do_not_leak() {
    let body = vec![
        if_(
            vec![(bin(BinOp::Neq, id("x"), num(5)), vec![let_("y", Type::Unknown, num(1))])],
            Some(vec![set("y", AssignOp::Assign, num(2))]),
        ),
    ];
    let root = program(vec![let_("x", Type::Unknown, num(4))], body, vec![]);
    assert_eq!(analyze(&root).err(), Some(SemanticError::Undefined("y".to_string())));
    let after = vec![
        if_(vec![(bin(BinOp::Neq, id("x"), num(5)), vec![let_("y", Type::Unknown, num(1))])], None),
        set("y", AssignOp::Assign, num(2)),
    ];
    let root = program(vec![let_("x", Type::Unknown, num(4))], after, vec![]);
    assert_eq!(analyze(&root).err(), Some(SemanticError::Undefined("y".to_string())));
}

#[test]
fn binary_int_plus_float_mismatch() {
    let f = func("f", vec![param("a", Type::Int32), param("b", Type::Float32)], Type::Int32, vec![
        let_("c", Type::Unknown, bin(BinOp::Add, id("a"), id("b"))),
    ]);
    let root = program(vec![f], vec![], vec![]);
    assert_eq!(
        analyze(&root).err(),
        Some(SemanticError::BinaryMismatch(BinOp::Add, Type::Int32, Type::Float32))
    );
}

#[test]
fn binary_int_results() {
    let root = program(
        vec![let_("s", Type::Unknown, bin(BinOp::Add, num(1), num(2))), let_("e", Type::Unknown, bin(BinOp::Eq, num(1), num(2)))],
        vec![],
        vec![],
    );
    let a = analyze(&root).unwrap();
    assert_eq!(a.globals[0].type_t, Type::Int32);
    assert_eq!(a.globals[1].type_t, Type::Bool);
}

#[test]
fn call_float_params_with_ints_fails() {
    let f = func("f", vec![param("a", Type::Float32), param("b", Type::Float32)], Type::Float32, vec![]);
    let body = vec![let_("r", Type::Unknown, call("f", vec![num(1), num(2)]))];
    let root = program(vec![f], body, vec![]);
    assert_eq!(
        analyze(&root).err(),
        Some(SemanticError::ArgMismatch("f".to_string(), 0, Type::Float32, Type::Int32))
    );
}

#[test]
fn call_arity_mismatch() {
    let f = func("f", vec![param("a", Type::Int32)], Type::Int32, vec![]);
    let body = vec![let_("r", Type::Unknown, call("f", vec![num(1), num(2)]))];
    let root = program(vec![f], body, vec![]);
    assert_eq!(analyze(&root).err(), Some(SemanticError::ArityMismatch("f".to_string(), 1, 2)));
}

#[test]
fn forward_reference_to_later_function() {
    let f = func("f", vec![param("a", Type::Int32)], Type::Int32, vec![
        Stmt::Return(Box::new(call("g", vec![id("a")]))),
    ]);
    let g = func("g", vec![param("b", Type::Int32)], Type::Int32, vec![
        Stmt::Return(Box::new(call("f", vec![id("b")]))),
    ]);
    let body = vec![let_("r", Type::Unknown, call("f", vec![num(3)]))];
    let root = program(vec![f], body, vec![g]);
    assert!(analyze(&root).is_ok());
}

#[test]
fn forward_reference_between_values() {
    let root = program(
        vec![let_("a", Type::Unknown, bin(BinOp::Add, id("b"), num(1))), let_("b", Type::Unknown, num(2))],
        vec![set("a", AssignOp::AddAssign, id("b"))],
        vec![],
    );
    let a = analyze(&root).unwrap();
    assert_eq!(a.globals[0].type_t, Type::Int32);
    assert!(a.rank[1] < a.rank[0]);
}

#[test]
fn self_referential_value_is_cyclic() {
    let root = program(vec![let_("x", Type::Unknown, bin(BinOp::Add, id("x"), num(1)))], vec![], vec![]);
    assert_eq!(analyze(&root).err(), Some(SemanticError::Cyclic("x".to_string())));
    let root = program(
        vec![let_("a", Type::Unknown, id("b")), let_("b", Type::Unknown, id("a"))],
        vec![],
        vec![],
    );
    assert!(matches!(analyze(&root).err(), Some(SemanticError::Cyclic(_))));
}

#[test]
fn analysis_is_deterministic() {
    let make = || {
        program(
            vec![let_("a", Type::Unknown, bin(BinOp::Mult, id("b"), num(3))), let_("b", Type::Int32, num(2))],
            vec![let_("c", Type::Unknown, bin(BinOp::Lt, id("a"), id("b")))],
            vec![],
        )
    };
    let r1 = analyze(&make()).unwrap();
    let r2 = analyze(&make()).unwrap();
    assert_eq!(r1.globals.len(), r2.globals.len());
    for k in 0..r1.globals.len() {
        assert_eq!(r1.globals[k].type_t, r2.globals[k].type_t);
        assert_eq!(r1.rank[k], r2.rank[k]);
    }
}

#[test]
fn errors_of_each_kind() {
    let root = program(vec![], vec![let_("a", Type::Unknown, id("nope"))], vec![]);
    assert_eq!(analyze(&root).err(), Some(SemanticError::Undefined("nope".to_string())));
    let root = program(vec![], vec![let_("a", Type::Float32, num(1))], vec![]);
    assert_eq!(
        analyze(&root).err(),
        Some(SemanticError::AnnotationMismatch("a".to_string(), Type::Float32, Type::Int32))
    );
    let root = program(vec![], vec![if_(vec![(num(1), vec![])], None)], vec![]);
    assert_eq!(analyze(&root).err(), Some(SemanticError::ConditionNotBool(Type::Int32)));
    let root = program(vec![], vec![Stmt::Return(Box::new(num(1)))], vec![]);
    assert_eq!(analyze(&root).err(), Some(SemanticError::MisplacedReturn));
    let f = func("f", vec![], Type::Bool, vec![Stmt::Return(Box::new(num(1)))]);
    let root = program(vec![f], vec![], vec![]);
    assert_eq!(analyze(&root).err(), Some(SemanticError::ReturnMismatch(Type::Bool, Type::Int32)));
    let root = program(vec![let_("x", Type::Unknown, num(1)), let_("x", Type::Unknown, num(2))], vec![], vec![]);
    assert_eq!(analyze(&root).err(), Some(SemanticError::Duplicate("x".to_string())));
    let root = program(vec![set("x", AssignOp::Assign, num(1))], vec![], vec![]);
    assert_eq!(analyze(&root).err(), Some(SemanticError::TopLevelStatement));
    let root = program(vec![], vec![let_("f", Type::Unknown, call("f", vec![]))], vec![]);
    assert_eq!(analyze(&root).err(), Some(SemanticError::Undefined("f".to_string())));
}

#[test]
fn with_clause_read_only_binding() {
    let g = Stmt::Assign(sym("g"), Type::Unknown, Box::new(num(1)));
    let body = vec![set("g", AssignOp::Assign, num(2))];
    let root = Root {
        preblock: vec![g],
        program: Program::With(sym("p"), vec![WithVar::Imm(sym("g"))], body),
        postblock: vec![],
    };
    assert_eq!(analyze(&root).err(), Some(SemanticError::Immutable("g".to_string())));
    let g = Stmt::Assign(sym("g"), Type::Unknown, Box::new(num(1)));
    let root = Root {
        preblock: vec![g],
        program: Program::With(sym("p"), vec![WithVar::Mut(sym("g"))], vec![set("g", AssignOp::SubAssign, num(2))]),
        postblock: vec![],
    };
    assert!(analyze(&root).is_ok());
}
