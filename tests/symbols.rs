use rascal::ast::{new_frame, Expr, Func, Node, Param, Program, Stmt, Term};
use rascal::symbol::{new_identmapping, new_symbol, new_var, Symbol, Symbolic};
use rascal::types::{FunctionType, Type};

#[test]
fn declarations_name_their_bindings() {
    let s = Stmt::Assign(new_symbol("x".to_string()), Type::Int64, Box::new(Expr::Term(Box::new(Term::Num(1)))));
    let m = s.get_symbol().unwrap();
    assert_eq!(m.symbol, Symbol { ident: "x".to_string() });
    assert_eq!(m.var.type_t, Type::Int64);
    let f = Func {
        ret_t: Type::Bool,
        params: vec![Param { type_t: Type::UInt32, name: "a".to_string() }],
        with: vec![],
        ident: "f".to_string(),
        block: vec![],
    };
    let m = Stmt::FuncDef(Box::new(f)).get_symbol().unwrap();
    assert_eq!(m.var.type_t, Type::Function(FunctionType { params_t: vec![Type::UInt32], return_t: Box::new(Type::Bool) }));
    assert_eq!(m.var.node, Node::Func("f".to_string()));
    let bad = Func { ret_t: Type::Unknown, params: vec![], with: vec![], ident: "g".to_string(), block: vec![] };
    assert!(Stmt::FuncDef(Box::new(bad)).get_symbol().is_none());
    let p = Program::NoWith(new_symbol("prog".to_string()), vec![]).get_symbol().unwrap();
    assert_eq!(p.var.type_t, Type::Program);
    let m = new_identmapping(new_symbol("y".to_string()), new_var(Type::Float32, Node::Param("y".to_string())));
    assert_eq!(m.var.type_t, Type::Float32);
}

#[test]
fn frames_track_progress() {
    let mut fr = new_frame(Node::Local(new_symbol("v".to_string())), Type::Unknown, 2, false);
    assert_eq!(fr.get_prog(), 0);
    fr.inc_prog();
    fr.inc_prog();
    assert_eq!(fr.get_prog(), fr.get_total());
    fr.set_type(Type::Int32);
    fr.set_checked();
    assert!(fr.get_checked());
    assert_eq!(*fr.get_type(), Type::Int32);
}
