use bitfields::ast::{Expr, FieldVal, Stmt, WithStmts};
use bitfields::fields::FieldDescriptor;
use bitfields::structs::{RecordDecl, Translation, TranslationError};

fn field(
    name: &str,
    ty: &str,
    width: Option<u64>,
    bit_offset: u64,
    type_bitwidth: u64,
    ctype: u64,
) -> FieldDescriptor {
    FieldDescriptor {
        name: name.to_string(),
        ty: ty.to_string(),
        bitfield_width: width,
        platform_bit_offset: bit_offset,
        platform_type_bitwidth: type_bitwidth,
        ctype,
        is_aligned_struct: false,
        inner_type_name: String::new(),
        padding_ident: String::new(),
    }
}

fn tr() -> Translation {
    Translation { field_names: Vec::new() }
}

fn pad_names(n: usize) -> Vec<String> {
    (0..n).map(|i| format!("pad_{}", i)).collect()
}

fn pure(e: Expr) -> WithStmts {
    WithStmts { stmts: Vec::new(), val: e, is_unsafe: false }
}

fn example_fields() -> Vec<FieldDescriptor> {
    vec![
        field("a", "u32", None, 0, 32, 0),
        field("b", "u8", Some(3), 32, 8, 1),
        field("c", "u8", Some(5), 35, 8, 1),
    ]
}

fn zero_array(n: u64) -> Expr {
    Expr::Repeat { elem: Box::new(Expr::Lit(0)), len: Box::new(Expr::Lit(n)) }
}

#[test]
fn zero_initializer_fills_groups_and_padding_with_zero() {
    let fields = example_fields();
    let defaults = vec![pure(Expr::Lit(7)), pure(Expr::Lit(0))];
    let names = pad_names(2 * fields.len() + 1);
    let r = tr()
        .convert_struct_zero_initializer("Foo", &fields, 8, false, &defaults, &names)
        .unwrap();
    assert!(r.stmts.is_empty());
    assert!(!r.is_unsafe);
    assert_eq!(
        r.val,
        Expr::StructLit {
            name: "Foo".to_string(),
            fields: vec![
                FieldVal { name: "a".to_string(), expr: Expr::Lit(7) },
                FieldVal { name: "b_c".to_string(), expr: zero_array(1) },
                FieldVal { name: "pad_0".to_string(), expr: zero_array(3) },
            ],
        }
    );
}

#[test]
fn zero_initializer_unwraps_inner_representation() {
    // A packed record embedding an aligned record type: the default value is
    // produced for the outer type and unwrapped to its first member.
    let fields = vec![FieldDescriptor {
        name: "sub".to_string(),
        ty: "Sub".to_string(),
        bitfield_width: None,
        platform_bit_offset: 0,
        platform_type_bitwidth: 32,
        ctype: 0,
        is_aligned_struct: true,
        inner_type_name: "Sub_Inner".to_string(),
        padding_ident: "SUB_PADDING".to_string(),
    }];
    let defaults = vec![pure(Expr::Ident("sub_default".to_string()))];
    let names = pad_names(3);
    let r = tr()
        .convert_struct_zero_initializer("Outer", &fields, 4, true, &defaults, &names)
        .unwrap();
    assert_eq!(
        r.val,
        Expr::StructLit {
            name: "Outer".to_string(),
            fields: vec![
                FieldVal {
                    name: "sub".to_string(),
                    expr: Expr::FieldAccessIdx {
                        base: Box::new(Expr::Ident("sub_default".to_string())),
                        idx: 0,
                    },
                },
                FieldVal {
                    name: "pad_0".to_string(),
                    expr: Expr::Repeat {
                        elem: Box::new(Expr::Lit(0)),
                        len: Box::new(Expr::Ident("SUB_PADDING".to_string())),
                    },
                },
            ],
        }
    );
}

#[test]
fn literal_defaults_fields_past_the_supplied_expressions() {
    // Only the first ordinary field is supplied; the trailing ordinary field
    // takes its type's implicit default.
    let fields = vec![
        field("a", "u32", None, 0, 32, 0),
        field("b", "u8", Some(3), 32, 8, 1),
        field("z", "u8", None, 40, 8, 1),
    ];
    let record = RecordDecl {
        name: "Foo".to_string(),
        fields: Some(fields),
        platform_byte_size: 6,
        is_packed: false,
    };
    let exprs = vec![pure(Expr::Lit(1))];
    let defaults = vec![pure(Expr::Lit(0)), pure(Expr::Lit(9))];
    let names = pad_names(7);
    let r = tr().convert_struct_literal(&record, &exprs, &defaults, &names).unwrap();
    match &r.val {
        Expr::Block { stmts } => match &stmts[0] {
            Stmt::Local { init: Expr::StructLit { fields: vals, .. }, .. } => {
                assert!(vals.contains(&FieldVal { name: "a".to_string(), expr: Expr::Lit(1) }));
                assert!(vals.contains(&FieldVal { name: "z".to_string(), expr: Expr::Lit(9) }));
            }
            other => panic!("expected the temporary binding, got {:?}", other),
        },
        other => panic!("expected a block, got {:?}", other),
    }
}

#[test]
fn zero_initializer_rejects_impure_default() {
    let fields = example_fields();
    let impure = WithStmts {
        stmts: vec![Stmt::Semi(Expr::Lit(1))],
        val: Expr::Lit(0),
        is_unsafe: false,
    };
    let defaults = vec![impure, pure(Expr::Lit(0))];
    let names = pad_names(2 * fields.len() + 1);
    let r = tr().convert_struct_zero_initializer("Foo", &fields, 8, false, &defaults, &names);
    assert_eq!(r, Err(TranslationError::ImpureFieldExpression));
}

#[test]
fn literal_defers_bitfield_values_to_setters() {
    // Supplied values: 1 for the ordinary field, 2 for the first bit-field;
    // the second bit-field is left implicit.  The bit-field value must be
    // applied by a setter after the literal, never inside it.
    let record = RecordDecl {
        name: "Foo".to_string(),
        fields: Some(example_fields()),
        platform_byte_size: 8,
        is_packed: false,
    };
    let exprs = vec![pure(Expr::Lit(1)), pure(Expr::Lit(2))];
    let defaults = vec![pure(Expr::Lit(0)), pure(Expr::Lit(0))];
    let names = pad_names(7);
    let r = tr().convert_struct_literal(&record, &exprs, &defaults, &names).unwrap();
    assert!(r.stmts.is_empty());
    assert!(!r.is_unsafe);
    let expected_literal = Expr::StructLit {
        name: "Foo".to_string(),
        fields: vec![
            FieldVal { name: "b_c".to_string(), expr: zero_array(1) },
            FieldVal { name: "pad_0".to_string(), expr: zero_array(3) },
            FieldVal { name: "a".to_string(), expr: Expr::Lit(1) },
        ],
    };
    let expected = Expr::Block {
        stmts: vec![
            Stmt::Local { name: "init".to_string(), init: expected_literal },
            Stmt::Expr(Expr::MethodCall {
                receiver: Box::new(Expr::Ident("init".to_string())),
                method: "set_b".to_string(),
                args: vec![Expr::Lit(2)],
            }),
            Stmt::Expr(Expr::Ident("init".to_string())),
        ],
    };
    assert_eq!(r.val, expected);
}

#[test]
fn literal_marks_unsafe_when_a_used_expression_is_unsafe() {
    let record = RecordDecl {
        name: "Foo".to_string(),
        fields: Some(example_fields()),
        platform_byte_size: 8,
        is_packed: false,
    };
    let mut unsafe_expr = pure(Expr::Lit(1));
    unsafe_expr.is_unsafe = true;
    let exprs = vec![unsafe_expr];
    let defaults = vec![pure(Expr::Lit(0)), pure(Expr::Lit(0))];
    let names = pad_names(7);
    let r = tr().convert_struct_literal(&record, &exprs, &defaults, &names).unwrap();
    assert!(r.is_unsafe);
}

#[test]
fn literal_rejects_forward_declared_record() {
    let record = RecordDecl {
        name: "Foo".to_string(),
        fields: None,
        platform_byte_size: 8,
        is_packed: false,
    };
    let r = tr().convert_struct_literal(&record, &Vec::new(), &Vec::new(), &Vec::new());
    assert_eq!(r, Err(TranslationError::ForwardDeclarationZeroInit));
}

#[test]
fn literal_rejects_impure_supplied_expression() {
    let record = RecordDecl {
        name: "Foo".to_string(),
        fields: Some(example_fields()),
        platform_byte_size: 8,
        is_packed: false,
    };
    let impure = WithStmts {
        stmts: vec![Stmt::Semi(Expr::Lit(1))],
        val: Expr::Lit(0),
        is_unsafe: false,
    };
    let exprs = vec![impure];
    let defaults = vec![pure(Expr::Lit(0)), pure(Expr::Lit(0))];
    let names = pad_names(7);
    let r = tr().convert_struct_literal(&record, &exprs, &defaults, &names);
    assert_eq!(r, Err(TranslationError::ImpureFieldExpression));
}
