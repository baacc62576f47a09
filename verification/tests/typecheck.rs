use mal::arena::{ASTNode, Arena, NodeID, UnaryOp, OP_ADD, OP_AND, OP_ASSIGN, OP_CONCAT, OP_LT, OP_MUL};
use mal::ownership::StringTable;
use mal::typecheck::{
    check_function_call, check_type_compatible, infer_broadcast_shape, infer_function_type, infer_matmul_shape,
    infer_tensor_type, infer_type, TypeEnv, TypeError,
};
use mal::types::{DataType, Shape, TensorDtype};

#[test]
fn test_int_literal() {
    let mut arena = Arena::new(100);
    let st = StringTable::new();
    let env = TypeEnv::new();
    let node = arena.allocate(ASTNode::Int(42)).unwrap();
    assert_eq!(infer_type(node, &arena, &st, &env).unwrap(), DataType::Int64);
}

#[test]
fn test_text_literal() {
    let mut arena = Arena::new(100);
    let st = StringTable::new();
    let env = TypeEnv::new();
    let node = arena.allocate(ASTNode::Str(0)).unwrap();
    assert_eq!(infer_type(node, &arena, &st, &env).unwrap(), DataType::Text);
}

#[test]
fn test_arithmetic() {
    let mut arena = Arena::new(100);
    let st = StringTable::new();
    let env = TypeEnv::new();
    let left = arena.allocate(ASTNode::Int(5)).unwrap();
    let right = arena.allocate(ASTNode::Int(3)).unwrap();
    let node = arena.allocate(ASTNode::BinOp { op: OP_ADD, left, right }).unwrap();
    assert_eq!(infer_type(node, &arena, &st, &env).unwrap(), DataType::Int64);
}

#[test]
fn test_concat_type_error() {
    let mut arena = Arena::new(100);
    let st = StringTable::new();
    let env = TypeEnv::new();
    let left = arena.allocate(ASTNode::Int(5)).unwrap();
    let right = arena.allocate(ASTNode::Str(0)).unwrap();
    let node = arena.allocate(ASTNode::BinOp { op: OP_CONCAT, left, right }).unwrap();
    assert!(matches!(infer_type(node, &arena, &st, &env).unwrap_err(), TypeError::IncompatibleTypes { .. }));
}

#[test]
fn test_lambda_type() {
    let mut arena = Arena::new(100);
    let mut st = StringTable::new();
    let env = TypeEnv::new();
    let param_idx = st.intern("س");
    let param = arena.allocate(ASTNode::Ident(param_idx)).unwrap();
    let param_ref = arena.allocate(ASTNode::Ident(param_idx)).unwrap();
    let param_ref2 = arena.allocate(ASTNode::Ident(param_idx)).unwrap();
    let body = arena.allocate(ASTNode::BinOp { op: OP_MUL, left: param_ref, right: param_ref2 }).unwrap();
    let lambda = arena.allocate(ASTNode::Lambda { params: param, body }).unwrap();
    assert_eq!(infer_type(lambda, &arena, &st, &env).unwrap(), DataType::Int64);
}

#[test]
fn environment_and_operator_rules() {
    let mut arena = Arena::new(100);
    let mut st = StringTable::new();
    let x = st.intern("x");
    let y = st.intern("y");
    let env: TypeEnv = vec![("x".to_string(), DataType::Int64), ("x".to_string(), DataType::Bool)];
    let xr = arena.allocate(ASTNode::Ident(x)).unwrap();
    let yr = arena.allocate(ASTNode::Ident(y)).unwrap();
    let bad = arena.allocate(ASTNode::Ident(77)).unwrap();
    let t = arena.allocate(ASTNode::BoolLit(true)).unwrap();
    let one = arena.allocate(ASTNode::Int(1)).unwrap();
    let conj = arena.allocate(ASTNode::BinOp { op: OP_AND, left: xr, right: t }).unwrap();
    let less = arena.allocate(ASTNode::BinOp { op: OP_LT, left: xr, right: one }).unwrap();
    let assign = arena.allocate(ASTNode::BinOp { op: OP_ASSIGN, left: one, right: t }).unwrap();
    let neg = arena.allocate(ASTNode::UnaryOp { op: UnaryOp::Neg, expr: t }).unwrap();
    let not = arena.allocate(ASTNode::UnaryOp { op: UnaryOp::Not, expr: xr }).unwrap();
    let undefined_left = arena.allocate(ASTNode::BinOp { op: OP_ADD, left: yr, right: t }).unwrap();
    let empty_set = arena.allocate(ASTNode::SetLiteral { elems: NodeID::invalid() }).unwrap();
    let list = arena.allocate(ASTNode::List { head: one, tail: NodeID::invalid() }).unwrap();
    let fixed = arena.allocate(ASTNode::FixedPoint(3)).unwrap();
    assert_eq!(infer_type(xr, &arena, &st, &env).unwrap(), DataType::Bool);
    assert_eq!(infer_type(conj, &arena, &st, &env).unwrap(), DataType::Bool);
    assert_eq!(
        infer_type(less, &arena, &st, &env).unwrap_err(),
        TypeError::TypeMismatch { expected: DataType::Bool, actual: DataType::Int64 }
    );
    assert_eq!(infer_type(assign, &arena, &st, &env).unwrap(), DataType::Bool);
    assert_eq!(
        infer_type(neg, &arena, &st, &env).unwrap_err(),
        TypeError::IncompatibleTypes { expected: DataType::Int64, actual: DataType::Bool }
    );
    assert_eq!(infer_type(not, &arena, &st, &env).unwrap(), DataType::Bool);
    assert_eq!(
        infer_type(undefined_left, &arena, &st, &env).unwrap_err(),
        TypeError::UndefinedVariable { var: "y".to_string() }
    );
    assert_eq!(
        infer_type(bad, &arena, &st, &env).unwrap_err(),
        TypeError::UnknownType { expr: "unknown identifier".to_string() }
    );
    assert_eq!(infer_type(empty_set, &arena, &st, &env).unwrap(), DataType::Text);
    assert_eq!(infer_type(list, &arena, &st, &env).unwrap(), DataType::Int64);
    assert_eq!(infer_type(fixed, &arena, &st, &env).unwrap(), DataType::Text);
    assert_eq!(
        infer_type(NodeID(500), &arena, &st, &env).unwrap_err(),
        TypeError::UnknownType { expr: "invalid node".to_string() }
    );
}

#[test]
fn matmul_shapes() {
    let a = Shape::new(vec![2, 3]);
    let b = Shape::new(vec![3, 4]);
    assert_eq!(infer_matmul_shape(&a, &b).unwrap(), Shape::new(vec![2, 4]));
    assert_eq!(
        infer_matmul_shape(&a, &a).unwrap_err(),
        TypeError::MatMulDimMismatch { lhs_inner: 3, rhs_inner: 2 }
    );
    assert_eq!(
        infer_matmul_shape(&Shape::new(vec![2]), &b).unwrap_err(),
        TypeError::MatMulRequires2D { lhs_rank: 1, rhs_rank: 2 }
    );
}

#[test]
fn broadcast_shapes() {
    let a = Shape::new(vec![4, 1, 3]);
    let b = Shape::new(vec![5, 1]);
    assert_eq!(infer_broadcast_shape(&a, &b).unwrap(), Shape::new(vec![4, 5, 3]));
    let c = Shape::new(vec![2, 3]);
    let d = Shape::new(vec![4, 3]);
    assert_eq!(
        infer_broadcast_shape(&c, &d).unwrap_err(),
        TypeError::BroadcastIncompatible { shape1: c.clone(), shape2: d.clone() }
    );
}

#[test]
fn compatibility_of_types() {
    let t1 = infer_tensor_type(&Shape::new(vec![2, 3]), &TensorDtype::F32);
    let t2 = infer_tensor_type(&Shape::new(vec![3]), &TensorDtype::F32);
    let t3 = infer_tensor_type(&Shape::new(vec![3]), &TensorDtype::I64);
    let t4 = infer_tensor_type(&Shape::new(vec![4]), &TensorDtype::F32);
    assert_eq!(t1, DataType::Tensor { dtype: TensorDtype::F32, shape: Shape::new(vec![2, 3]) });
    assert_eq!(check_type_compatible(&DataType::Int64, &DataType::Int64), Ok(()));
    assert_eq!(check_type_compatible(&t1, &t2), Ok(()));
    assert!(matches!(check_type_compatible(&t2, &t3), Err(TypeError::TypeMismatch { .. })));
    assert!(matches!(check_type_compatible(&t1, &t4), Err(TypeError::BroadcastIncompatible { .. })));
    assert!(matches!(check_type_compatible(&DataType::Date, &DataType::Date), Err(TypeError::TypeMismatch { .. })));

    let f1 = infer_function_type(vec![DataType::Int64, DataType::Bool], DataType::Text);
    let f2 = infer_function_type(vec![DataType::Int64, DataType::Bool], DataType::Text);
    let f3 = infer_function_type(vec![DataType::Int64, DataType::Text], DataType::Text);
    let f4 = infer_function_type(vec![DataType::Int64], DataType::Text);
    assert_eq!(check_type_compatible(&f1, &f2), Ok(()));
    assert_eq!(
        check_type_compatible(&f1, &f3),
        Err(TypeError::TypeMismatch { expected: DataType::Bool, actual: DataType::Text })
    );
    assert!(matches!(check_type_compatible(&f1, &f4), Err(TypeError::TypeMismatch { .. })));
}

#[test]
fn function_calls() {
    let f = infer_function_type(vec![DataType::Int64, DataType::Bool], DataType::Text);
    assert_eq!(check_function_call(&f, &[DataType::Int64, DataType::Bool]).unwrap(), DataType::Text);
    assert_eq!(
        check_function_call(&f, &[DataType::Int64, DataType::Int64]).unwrap_err(),
        TypeError::TypeMismatch { expected: DataType::Bool, actual: DataType::Int64 }
    );
    assert!(matches!(
        check_function_call(&f, &[DataType::Int64]).unwrap_err(),
        TypeError::TypeMismatch { actual: DataType::Text, .. }
    ));
    assert_eq!(
        check_function_call(&DataType::Int64, &[]).unwrap_err(),
        TypeError::NotATensor { expected: DataType::Int64 }
    );
}

#[test]
fn broadcasting_stretches_only_ones() {
    let a = Shape::new(vec![0]);
    let b = Shape::new(vec![1]);
    assert_eq!(a.broadcast_shape(&b), Some(Shape::new(vec![0])));
    assert_eq!(b.broadcast_shape(&a), Some(Shape::new(vec![0])));
    assert_eq!(infer_broadcast_shape(&Shape::new(vec![3, 1]), &Shape::new(vec![0])).unwrap(), Shape::new(vec![3, 0]));
}

#[test]
fn infer_type_follows_forward_references() {
    // The parent is allocated before its children.
    let mut arena = Arena::new(10);
    let root = arena.allocate(ASTNode::BinOp { op: OP_ADD, left: NodeID(1), right: NodeID(2) }).unwrap();
    arena.allocate(ASTNode::Int(1)).unwrap();
    arena.allocate(ASTNode::Int(2)).unwrap();
    let st = StringTable::new();
    let env = TypeEnv::new();
    assert_eq!(infer_type(root, &arena, &st, &env).unwrap(), DataType::Int64);
}
