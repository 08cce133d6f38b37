use bitfields::ast::{clone_expr, contains_block, BinOp, Expr, Stmt};
use bitfields::structs::{Translation, TranslationError};

fn tr() -> Translation {
    Translation { field_names: vec![(7, "f".to_string())] }
}

fn getter() -> Expr {
    Expr::MethodCall {
        receiver: Box::new(Expr::Ident("x".to_string())),
        method: "get_f".to_string(),
        args: Vec::new(),
    }
}

fn setter_call(arg: Expr) -> Expr {
    Expr::MethodCall {
        receiver: Box::new(Expr::Ident("x".to_string())),
        method: "set_f".to_string(),
        args: vec![arg],
    }
}

#[test]
fn compound_assignment_without_block_calls_setter_inline() {
    // x.f += 5 becomes x.set_f(x.get_f() + 5), with value x.get_f().
    let lhs = Expr::Ident("x".to_string());
    let r = tr()
        .convert_bitfield_assignment_op_with_rhs(BinOp::AssignAdd, &lhs, Expr::Lit(5), 7, "rhs_1")
        .unwrap();
    let operand = Expr::Binary {
        op: BinOp::Add,
        left: Box::new(getter()),
        right: Box::new(Expr::Lit(5)),
    };
    assert_eq!(r.val, getter());
    assert_eq!(r.stmts, vec![Stmt::Expr(setter_call(operand))]);
    assert!(!r.is_unsafe);
}

#[test]
fn compound_assignment_with_nested_block_binds_temporary() {
    // A right-hand side containing a block is bound to a fresh temporary
    // before the setter call, so its effects run exactly once.
    let lhs = Expr::Ident("x".to_string());
    let rhs = Expr::Block { stmts: vec![Stmt::Expr(Expr::Lit(5))] };
    let r = tr()
        .convert_bitfield_assignment_op_with_rhs(BinOp::AssignAdd, &lhs, rhs.clone_for_test(), 7, "rhs_1")
        .unwrap();
    let operand = Expr::Binary {
        op: BinOp::Add,
        left: Box::new(getter()),
        right: Box::new(rhs),
    };
    assert_eq!(r.val, getter());
    assert_eq!(
        r.stmts,
        vec![
            Stmt::Local { name: "rhs_1".to_string(), init: operand },
            Stmt::Semi(setter_call(Expr::Ident("rhs_1".to_string()))),
        ]
    );
}

#[test]
fn plain_assignment_splices_block_rhs() {
    // x.f = { s; v } splices the block's statements and passes its value to
    // the setter.
    let lhs = Expr::Ident("x".to_string());
    let rhs = Expr::Block {
        stmts: vec![Stmt::Semi(Expr::Lit(9)), Stmt::Expr(Expr::Lit(3))],
    };
    let r = tr()
        .convert_bitfield_assignment_op_with_rhs(BinOp::Assign, &lhs, rhs, 7, "rhs_1")
        .unwrap();
    assert_eq!(r.val, getter());
    assert_eq!(
        r.stmts,
        vec![Stmt::Semi(Expr::Lit(9)), Stmt::Expr(setter_call(Expr::Lit(3)))]
    );
}

#[test]
fn plain_assignment_block_without_value_is_rejected() {
    let lhs = Expr::Ident("x".to_string());
    let rhs = Expr::Block { stmts: vec![Stmt::Semi(Expr::Lit(9))] };
    let r = tr().convert_bitfield_assignment_op_with_rhs(BinOp::Assign, &lhs, rhs, 7, "rhs_1");
    assert_eq!(r, Err(TranslationError::UnreachableShapeViolation));
}

#[test]
fn unknown_field_is_a_lookup_failure() {
    let lhs = Expr::Ident("x".to_string());
    let r = tr().convert_bitfield_assignment_op_with_rhs(BinOp::Assign, &lhs, Expr::Lit(1), 8, "t");
    assert_eq!(r, Err(TranslationError::FieldNameLookupFailure));
}

#[test]
fn non_assignment_operator_is_rejected() {
    let lhs = Expr::Ident("x".to_string());
    let r = tr().convert_bitfield_assignment_op_with_rhs(BinOp::Add, &lhs, Expr::Lit(1), 7, "t");
    assert_eq!(r, Err(TranslationError::UnsupportedOperator));
}

#[test]
fn contains_block_scans_the_listed_shapes() {
    let block = Expr::Block { stmts: Vec::new() };
    assert!(contains_block(&block));
    let in_binary = Expr::Binary {
        op: BinOp::Add,
        left: Box::new(Expr::Lit(1)),
        right: Box::new(Expr::Block { stmts: Vec::new() }),
    };
    assert!(contains_block(&in_binary));
    let in_call_arg = Expr::MethodCall {
        receiver: Box::new(Expr::Ident("x".to_string())),
        method: "m".to_string(),
        args: vec![Expr::Lit(1), Expr::Block { stmts: Vec::new() }],
    };
    assert!(contains_block(&in_call_arg));
    // A block inside a struct literal is not one of the scanned shapes.
    let in_struct = Expr::StructLit {
        name: "S".to_string(),
        fields: vec![bitfields::ast::FieldVal {
            name: "f".to_string(),
            expr: Expr::Block { stmts: Vec::new() },
        }],
    };
    assert!(!contains_block(&in_struct));
    assert!(!contains_block(&Expr::Lit(1)));
}

#[test]
fn clone_expr_preserves_the_tree() {
    let e = Expr::Binary {
        op: BinOp::Add,
        left: Box::new(getter()),
        right: Box::new(Expr::Cast { expr: Box::new(Expr::Lit(2)), ty: "u8".to_string() }),
    };
    assert_eq!(clone_expr(&e), e);
}

trait CloneForTest {
    fn clone_for_test(&self) -> Expr;
}

impl CloneForTest for Expr {
    fn clone_for_test(&self) -> Expr {
        clone_expr(self)
    }
}
